use vstd::prelude::*;

use super::mount::{
    add_listeners_ops, ids_before, is_svg_tag, mount_children_ops, mount_fragment_spec, mount_ids, mount_spec,
    mounted, mounted_all, set_all_attrs_ops,
};
use super::children::{
    children_patched, children_spec, first_dom_from, has_keyed, is_increasing_present_subsequence, keyed_patched, keyed_removals,
    keyed_source, keyed_steps, kept_element, last_key_index, lemma_last_key_index_bound, mount_range_spec,
    mounted_range, pairs_patched, pairs_spec, remove_range_ops, reuse_map, stable_children,
};
use super::patch::{
    apply_attr_ops, attr_map, lemma_apply_concat, lemma_children_measure, patch_element_spec, new_events_phase, old_events_phase, attribute_ops, element_patched, element_target, listener_plan, patch_spec, patched, remove_dropped_attrs_ops,
    remove_node_ops, removals, set_changed_attrs_ops,
};
use super::{
    advance, dom_nodes, dom_nodes_all, insert_op, size, sizes, spec_dom_node, spec_key, spec_same_type, succ, DomOp,
    EventHandler, NodeId, VElement, VNode,
};

verus! {

// ---------------------------------------------------------------------------
// A model of the DOM, seen from one parent: the list of its child nodes
// ---------------------------------------------------------------------------

/// The position of the first `a` in `s` (the length of `s` when absent).
pub open spec fn first_index(s: Seq<NodeId>, a: NodeId) -> int
    decreases s.len(),
{
    if s.len() == 0 {
        0
    } else if s[0] == a {
        0
    } else {
        1 + first_index(s.subrange(1, s.len() as int), a)
    }
}

/// `s` with every occurrence of `x` taken out.
pub open spec fn without(s: Seq<NodeId>, x: NodeId) -> Seq<NodeId>
    decreases s.len(),
{
    if s.len() == 0 {
        s
    } else if s[0] == x {
        without(s.subrange(1, s.len() as int), x)
    } else {
        seq![s[0]] + without(s.subrange(1, s.len() as int), x)
    }
}

/// The nodes `d` placed into the child list `s`: before the first `a` for
/// anchor `Some(a)` (at the end when `a` is not there), at the end for `None`.
pub open spec fn place(s: Seq<NodeId>, d: Seq<NodeId>, anchor: Option<NodeId>) -> Seq<NodeId> {
    match anchor {
        Some(a) => s.take(first_index(s, a)) + d + s.skip(first_index(s, a)),
        None => s + d,
    }
}

/// The child list of `p` once `op` is applied to a DOM where it is `s`.
/// A node inserted anywhere leaves the place it had before; a dynamic node's
/// content counts as the one node its slot names.
pub open spec fn apply_op(p: NodeId, s: Seq<NodeId>, op: DomOp) -> Seq<NodeId> {
    match op {
        DomOp::AppendChild { parent, child } => if parent == p {
            place(without(s, child), seq![child], None)
        } else {
            without(s, child)
        },
        DomOp::InsertBefore { parent, child, anchor } => if parent == p {
            place(without(s, child), seq![child], Some(anchor))
        } else {
            without(s, child)
        },
        DomOp::RemoveChild { parent, child } => if parent == p {
            without(s, child)
        } else {
            s
        },
        DomOp::ClearChildren { node } => if node == p {
            Seq::empty()
        } else {
            s
        },
        DomOp::MountDynamic { parent, anchor, slot, .. } => if parent == p {
            place(without(s, slot), seq![slot], anchor)
        } else {
            without(s, slot)
        },
        _ => s,
    }
}

/// The child list of `p` once `ops` are applied in order to a DOM where it is `s`.
pub open spec fn apply_ops(p: NodeId, s: Seq<NodeId>, ops: Seq<DomOp>) -> Seq<NodeId>
    decreases ops.len(),
{
    if ops.len() == 0 {
        s
    } else {
        apply_op(p, apply_ops(p, s, ops.drop_last()), ops.last())
    }
}

// ---------------------------------------------------------------------------
// Lemmas about the model
// ---------------------------------------------------------------------------

/// `first_index` finds the first occurrence.
pub proof fn lemma_first_index(s: Seq<NodeId>, a: NodeId)
    ensures
        0 <= first_index(s, a) <= s.len(),
        forall|j: int| 0 <= j < first_index(s, a) ==> s[j] != a,
        first_index(s, a) < s.len() ==> s[first_index(s, a)] == a,
        first_index(s, a) == s.len() <==> !s.contains(a),
    decreases s.len(),
{
    if s.len() > 0 && s[0] != a {
        let t = s.subrange(1, s.len() as int);
        lemma_first_index(t, a);
        assert forall|j: int| 0 <= j < first_index(s, a) implies s[j] != a by {
            if j > 0 {
                assert(s[j] == t[j - 1]);
            }
        }
        if s.contains(a) {
            let w = choose|w: int| 0 <= w < s.len() && s[w] == a;
            assert(t[w - 1] == a);
        }
        if t.contains(a) {
            let w = choose|w: int| 0 <= w < t.len() && t[w] == a;
            assert(s[w + 1] == a);
        }
    } else if s.len() > 0 {
        assert(s.contains(a)) by {
            assert(s[0] == a);
        }
    }
}

/// Any position with the properties of the first occurrence is it.
pub proof fn lemma_first_index_is(s: Seq<NodeId>, a: NodeId, i: int)
    requires
        0 <= i <= s.len(),
        forall|j: int| 0 <= j < i ==> s[j] != a,
        i < s.len() ==> s[i] == a,
    ensures
        first_index(s, a) == i,
{
    lemma_first_index(s, a);
    let f = first_index(s, a);
    if f < i {
        assert(s[f] != a);
    } else if i < f {
        assert(s[i] != a);
    }
}

/// Taking out a node that is not there changes nothing.
pub proof fn lemma_without_absent(s: Seq<NodeId>, x: NodeId)
    requires
        !s.contains(x),
    ensures
        without(s, x) == s,
    decreases s.len(),
{
    if s.len() > 0 {
        let t = s.subrange(1, s.len() as int);
        assert(s[0] != x);
        assert(!t.contains(x)) by {
            if t.contains(x) {
                let w = choose|w: int| 0 <= w < t.len() && t[w] == x;
                assert(s[w + 1] == x);
            }
        }
        lemma_without_absent(t, x);
        assert(seq![s[0]] + t =~= s);
    }
}

/// Applying `a` and then `b` is applying `a + b`.
pub proof fn lemma_apply_ops_concat(p: NodeId, s: Seq<NodeId>, a: Seq<DomOp>, b: Seq<DomOp>)
    ensures
        apply_ops(p, apply_ops(p, s, a), b) == apply_ops(p, s, a + b),
    decreases b.len(),
{
    if b.len() == 0 {
        assert(a + b =~= a);
    } else {
        lemma_apply_ops_concat(p, s, a, b.drop_last());
        assert((a + b).drop_last() =~= a + b.drop_last());
        assert((a + b).last() == b.last());
    }
}

/// Applying one operation.
pub proof fn lemma_apply_one(p: NodeId, s: Seq<NodeId>, op: DomOp)
    ensures
        apply_ops(p, s, seq![op]) == apply_op(p, s, op),
{
    assert(seq![op].drop_last() =~= Seq::<DomOp>::empty());
    assert(apply_ops(p, s, seq![op].drop_last()) == s);
    assert(seq![op].last() == op);
}

/// Placing nothing changes nothing.
pub proof fn lemma_place_nothing(s: Seq<NodeId>, anchor: Option<NodeId>)
    ensures
        place(s, Seq::empty(), anchor) == s,
{
    match anchor {
        Some(a) => {
            lemma_first_index(s, a);
            assert(place(s, Seq::empty(), anchor) =~= s);
        },
        None => {
            assert(place(s, Seq::empty(), anchor) =~= s);
        },
    }
}

/// Placing `d1` and then `d2` at the same anchor places `d1 + d2`, when the
/// anchor is not among `d1`.
pub proof fn lemma_place_twice(s: Seq<NodeId>, d1: Seq<NodeId>, d2: Seq<NodeId>, anchor: Option<NodeId>)
    requires
        anchor matches Some(a) ==> !d1.contains(a),
    ensures
        place(place(s, d1, anchor), d2, anchor) == place(s, d1 + d2, anchor),
{
    match anchor {
        Some(a) => {
            lemma_first_index(s, a);
            let i = first_index(s, a);
            let s1 = s.take(i) + d1 + s.skip(i);
            assert forall|j: int| 0 <= j < i + d1.len() implies s1[j] != a by {
                if j >= i {
                    assert(s1[j] == d1[j - i]);
                }
            }
            if i + d1.len() < s1.len() {
                assert(s1[i + d1.len()] == s[i]);
            }
            lemma_first_index_is(s1, a, i + d1.len());
            assert(place(s1, d2, anchor) =~= place(s, d1 + d2, anchor));
        },
        None => {
            assert(place(place(s, d1, anchor), d2, anchor) =~= place(s, d1 + d2, anchor));
        },
    }
}

/// Nodes all below a bound stay below it when more such nodes are placed.
pub proof fn lemma_place_below(s: Seq<NodeId>, d: Seq<NodeId>, anchor: Option<NodeId>, b: int)
    requires
        forall|j: int| 0 <= j < s.len() ==> s[j] < b,
        forall|j: int| 0 <= j < d.len() ==> d[j] < b,
    ensures
        forall|j: int| 0 <= j < place(s, d, anchor).len() ==> place(s, d, anchor)[j] < b,
{
    let r = place(s, d, anchor);
    match anchor {
        Some(a) => {
            lemma_first_index(s, a);
            let i = first_index(s, a);
            assert forall|j: int| 0 <= j < r.len() implies r[j] < b by {
                if j < i {
                    assert(r[j] == s[j]);
                } else if j < i + d.len() {
                    assert(r[j] == d[j - i]);
                } else {
                    assert(r[j] == s[j - d.len()]);
                }
            }
        },
        None => {
            assert forall|j: int| 0 <= j < r.len() implies r[j] < b by {
                if j < s.len() {
                    assert(r[j] == s[j]);
                } else {
                    assert(r[j] == d[j - s.len()]);
                }
            }
        },
    }
}

// ---------------------------------------------------------------------------
// Mounting, applied to the model
// ---------------------------------------------------------------------------

/// `op` touches only nodes of the range `lo..hi`, and the children of `q`:
/// it inserts nodes of the range into `q` or into nodes of the range, and
/// removes nothing.
spec fn op_within(op: DomOp, q: NodeId, lo: int, hi: int) -> bool {
    match op {
        DomOp::AppendChild { parent, child } => (parent == q || lo <= parent < hi) && lo <= child < hi,
        DomOp::InsertBefore { parent, child, .. } => (parent == q || lo <= parent < hi) && lo <= child < hi,
        DomOp::MountDynamic { parent, slot, .. } => (parent == q || lo <= parent < hi) && lo <= slot < hi,
        DomOp::RemoveChild { .. } => false,
        DomOp::ClearChildren { .. } => false,
        _ => true,
    }
}

spec fn ops_within(ops: Seq<DomOp>, q: NodeId, lo: int, hi: int) -> bool {
    forall|i: int| 0 <= i < ops.len() ==> op_within(#[trigger] ops[i], q, lo, hi)
}

proof fn lemma_advance_exact(x: u64, n: nat)
    requires
        x + n <= u64::MAX,
    ensures
        advance(x, n) == x + n,
    decreases n,
{
    if n > 0 {
        lemma_advance_exact(x, (n - 1) as nat);
    }
}

proof fn lemma_within_concat(a: Seq<DomOp>, b: Seq<DomOp>, q: NodeId, lo: int, hi: int)
    requires
        ops_within(a, q, lo, hi),
        ops_within(b, q, lo, hi),
    ensures
        ops_within(a + b, q, lo, hi),
{
    assert forall|i: int| 0 <= i < (a + b).len() implies op_within(#[trigger] (a + b)[i], q, lo, hi) by {
        if i < a.len() {
            assert((a + b)[i] == a[i]);
        } else {
            assert((a + b)[i] == b[i - a.len()]);
        }
    }
}

proof fn lemma_within_widen(ops: Seq<DomOp>, q2: NodeId, lo2: int, hi2: int, q: NodeId, lo: int, hi: int)
    requires
        ops_within(ops, q2, lo2, hi2),
        lo <= lo2,
        hi2 <= hi,
        q2 == q || lo <= q2 < hi,
    ensures
        ops_within(ops, q, lo, hi),
{
    assert forall|i: int| 0 <= i < ops.len() implies op_within(#[trigger] ops[i], q, lo, hi) by {
        assert(op_within(ops[i], q2, lo2, hi2));
    }
}

proof fn lemma_attrs_within(attrs: Seq<(String, String)>, node: NodeId, k: int, q: NodeId, lo: int, hi: int)
    ensures
        ops_within(set_all_attrs_ops(attrs, node, k), q, lo, hi),
    decreases k,
{
    if k > 0 {
        lemma_attrs_within(attrs, node, k - 1, q, lo, hi);
        let a = set_all_attrs_ops(attrs, node, k - 1);
        let op = DomOp::SetAttribute { node, name: attrs[k - 1].0, value: attrs[k - 1].1 };
        assert(op_within(op, q, lo, hi));
        assert(ops_within(seq![op], q, lo, hi));
        lemma_within_concat(a, seq![op], q, lo, hi);
        assert(a.push(op) =~= a + seq![op]);
    }
}

proof fn lemma_listeners_within(
    events: Seq<(String, EventHandler)>,
    node: NodeId,
    first: u64,
    k: int,
    q: NodeId,
    lo: int,
    hi: int,
)
    ensures
        ops_within(add_listeners_ops(events, node, first, k), q, lo, hi),
    decreases k,
{
    if k > 0 {
        lemma_listeners_within(events, node, first, k - 1, q, lo, hi);
        let a = add_listeners_ops(events, node, first, k - 1);
        let op = DomOp::AddListener {
            node,
            event: events[k - 1].0,
            handler: events[k - 1].1.0,
            listener: advance(first, (k - 1) as nat),
        };
        assert(op_within(op, q, lo, hi));
        assert(ops_within(seq![op], q, lo, hi));
        lemma_within_concat(a, seq![op], q, lo, hi);
        assert(a.push(op) =~= a + seq![op]);
    }
}

/// Mounting into `q` with fresh identifiers from `next` on touches only
/// the new nodes and the children of `q`.
proof fn lemma_mount_within(v: VNode, q: NodeId, anchor: Option<NodeId>, svg: bool, next: u64)
    requires
        next + mount_ids(v) <= u64::MAX,
    ensures
        ops_within(mount_spec(v, q, anchor, svg, next).0, q, next as int, next + mount_ids(v)),
    decreases size(v), 0nat,
{
    let hi = next + mount_ids(v);
    match v {
        VNode::Element(el) => {
            assert(sizes(el.children@, el.children@.len() as int) < size(v));
            let ns = is_svg_tag(el.tag@) || svg;
            let first_child_id = advance(next, 1 + el.events@.len());
            lemma_advance_exact(next, 1 + el.events@.len());
            let n = el.children@.len() as int;
            let c = mount_children_ops(el.children@, n, next, ns, first_child_id);
            lemma_children_within(el.children@, n, next, ns, first_child_id);
            lemma_within_widen(c, next, first_child_id as int, first_child_id + ids_before(el.children@, n), q, next as int, hi);
            let c0 = seq![DomOp::CreateElement { node: next, tag: el.tag, svg: ns }];
            assert(ops_within(c0, q, next as int, hi)) by {
                assert(op_within(c0[0], q, next as int, hi));
            }
            let a = set_all_attrs_ops(el.attrs@, next, el.attrs@.len() as int);
            lemma_attrs_within(el.attrs@, next, el.attrs@.len() as int, q, next as int, hi);
            let l = add_listeners_ops(el.events@, next, succ(next), el.events@.len() as int);
            lemma_listeners_within(el.events@, next, succ(next), el.events@.len() as int, q, next as int, hi);
            let ins = seq![insert_op(q, next, anchor)];
            assert(ops_within(ins, q, next as int, hi)) by {
                assert(op_within(ins[0], q, next as int, hi));
            }
            lemma_within_concat(c0, a, q, next as int, hi);
            lemma_within_concat(c0 + a, l, q, next as int, hi);
            lemma_within_concat(c0 + a + l, c, q, next as int, hi);
            lemma_within_concat(c0 + a + l + c, ins, q, next as int, hi);
        },
        VNode::Text(t, _) => {
            let ops = mount_spec(v, q, anchor, svg, next).0;
            assert(op_within(ops[0], q, next as int, hi));
            assert(op_within(ops[1], q, next as int, hi));
        },
        VNode::Fragment(cs) => {
            assert(sizes(cs@, cs@.len() as int) < size(v));
            lemma_fragment_within(cs@, cs@.len() as int, q, anchor, svg, next);
        },
        VNode::Dynamic(_, _) => {
            let ops = mount_spec(v, q, anchor, svg, next).0;
            assert(op_within(ops[0], q, next as int, hi));
        },
        VNode::Empty => {},
    }
}

proof fn lemma_children_within(cs: Seq<VNode>, k: int, parent: NodeId, svg: bool, next: u64)
    requires
        next + ids_before(cs, k) <= u64::MAX,
    ensures
        ops_within(mount_children_ops(cs, k, parent, svg, next), parent, next as int, next + ids_before(cs, k)),
    decreases sizes(cs, k), 1nat,
{
    if 0 < k <= cs.len() {
        assert(sizes(cs, k) == sizes(cs, k - 1) + size(cs[k - 1]));
        lemma_children_within(cs, k - 1, parent, svg, next);
        let start = advance(next, ids_before(cs, k - 1));
        lemma_advance_exact(next, ids_before(cs, k - 1));
        lemma_mount_within(cs[k - 1], parent, None, svg, start);
        let hi = next + ids_before(cs, k);
        lemma_within_widen(
            mount_children_ops(cs, k - 1, parent, svg, next),
            parent,
            next as int,
            next + ids_before(cs, k - 1),
            parent,
            next as int,
            hi,
        );
        lemma_within_widen(
            mount_spec(cs[k - 1], parent, None, svg, start).0,
            parent,
            start as int,
            start + mount_ids(cs[k - 1]),
            parent,
            next as int,
            hi,
        );
        lemma_within_concat(
            mount_children_ops(cs, k - 1, parent, svg, next),
            mount_spec(cs[k - 1], parent, None, svg, start).0,
            parent,
            next as int,
            hi,
        );
    }
}

proof fn lemma_fragment_within(cs: Seq<VNode>, k: int, parent: NodeId, anchor: Option<NodeId>, svg: bool, next: u64)
    requires
        next + ids_before(cs, k) <= u64::MAX,
    ensures
        ops_within(
            mount_fragment_spec(cs, k, parent, anchor, svg, next).0,
            parent,
            next as int,
            next + ids_before(cs, k),
        ),
    decreases sizes(cs, k), 1nat,
{
    if 0 < k <= cs.len() {
        assert(sizes(cs, k) == sizes(cs, k - 1) + size(cs[k - 1]));
        lemma_fragment_within(cs, k - 1, parent, anchor, svg, next);
        let start = advance(next, ids_before(cs, k - 1));
        lemma_advance_exact(next, ids_before(cs, k - 1));
        lemma_mount_within(cs[k - 1], parent, anchor, svg, start);
        let hi = next + ids_before(cs, k);
        let a = mount_fragment_spec(cs, k - 1, parent, anchor, svg, next).0;
        let b = mount_spec(cs[k - 1], parent, anchor, svg, start).0;
        lemma_within_widen(a, parent, next as int, next + ids_before(cs, k - 1), parent, next as int, hi);
        lemma_within_widen(b, parent, start as int, start + mount_ids(cs[k - 1]), parent, next as int, hi);
        lemma_within_concat(a, b, parent, next as int, hi);
    } else {
        assert(mount_fragment_spec(cs, k, parent, anchor, svg, next).0.len() == 0);
    }
}

/// Operations that touch only other parents and nodes new to `s` leave the
/// child list `s` of `p` as it is.
proof fn lemma_apply_within(p: NodeId, s: Seq<NodeId>, ops: Seq<DomOp>, q: NodeId, lo: int, hi: int)
    requires
        ops_within(ops, q, lo, hi),
        q != p,
        !(lo <= p < hi),
        forall|j: int| 0 <= j < s.len() ==> !(lo <= #[trigger] s[j] < hi),
    ensures
        apply_ops(p, s, ops) == s,
    decreases ops.len(),
{
    if ops.len() > 0 {
        let d = ops.drop_last();
        assert(ops_within(d, q, lo, hi)) by {
            assert forall|i: int| 0 <= i < d.len() implies op_within(#[trigger] d[i], q, lo, hi) by {
                assert(d[i] == ops[i]);
            }
        }
        lemma_apply_within(p, s, d, q, lo, hi);
        let op = ops.last();
        assert(op_within(ops[ops.len() - 1], q, lo, hi));
        match op {
            DomOp::AppendChild { parent, child } => {
                lemma_absent_in_range(s, child, lo, hi);
                lemma_without_absent(s, child);
            },
            DomOp::InsertBefore { parent, child, .. } => {
                lemma_absent_in_range(s, child, lo, hi);
                lemma_without_absent(s, child);
            },
            DomOp::MountDynamic { parent, slot, .. } => {
                lemma_absent_in_range(s, slot, lo, hi);
                lemma_without_absent(s, slot);
            },
            _ => {},
        }
    }
}

proof fn lemma_absent_in_range(s: Seq<NodeId>, x: NodeId, lo: int, hi: int)
    requires
        lo <= x < hi,
        forall|j: int| 0 <= j < s.len() ==> !(lo <= #[trigger] s[j] < hi),
    ensures
        !s.contains(x),
{
    if s.contains(x) {
        let w = choose|w: int| 0 <= w < s.len() && s[w] == x;
        assert(!(lo <= s[w] < hi));
    }
}

/// Mounting places the mounted tree into its parent: where every node
/// already in the DOM is named below `next` (the first fresh identifier),
/// and the fresh identifiers do not run past `u64::MAX`, the operations
/// that mount `v` into `p` leave `p`'s child list `s` with the DOM nodes of
/// the mounted tree (those of a fragment's members, flattened, in order)
/// inserted before `anchor`, or at the end when there is none. Those nodes
/// are fresh ones.
pub proof fn lemma_mount_places_nodes(
    v: VNode,
    out: VNode,
    p: NodeId,
    anchor: Option<NodeId>,
    svg: bool,
    next: u64,
    s: Seq<NodeId>,
)
    requires
        mounted(v, out, svg, next),
        next + mount_ids(v) <= u64::MAX,
        p < next,
        forall|j: int| 0 <= j < s.len() ==> s[j] < next,
        anchor matches Some(a) ==> a < next,
    ensures
        apply_ops(p, s, mount_spec(v, p, anchor, svg, next).0) == place(s, dom_nodes(out), anchor),
        forall|j: int|
            0 <= j < dom_nodes(out).len() ==> next <= #[trigger] dom_nodes(out)[j] < next + mount_ids(v),
    decreases size(v), 0nat,
{
    let hi = next + mount_ids(v);
    let ops = mount_spec(v, p, anchor, svg, next).0;
    assert forall|j: int| 0 <= j < s.len() implies !(next <= #[trigger] s[j] < hi) by {}
    match v {
        VNode::Element(el) => {
            assert(sizes(el.children@, el.children@.len() as int) < size(v));
            let ns = is_svg_tag(el.tag@) || svg;
            let first_child_id = advance(next, 1 + el.events@.len());
            lemma_advance_exact(next, 1 + el.events@.len());
            let n = el.children@.len() as int;
            let c = mount_children_ops(el.children@, n, next, ns, first_child_id);
            lemma_children_within(el.children@, n, next, ns, first_child_id);
            lemma_within_widen(c, next, first_child_id as int, first_child_id + ids_before(el.children@, n), next, next as int, hi);
            let c0 = seq![DomOp::CreateElement { node: next, tag: el.tag, svg: ns }];
            assert(ops_within(c0, next, next as int, hi)) by {
                assert(op_within(c0[0], next, next as int, hi));
            }
            let a = set_all_attrs_ops(el.attrs@, next, el.attrs@.len() as int);
            lemma_attrs_within(el.attrs@, next, el.attrs@.len() as int, next, next as int, hi);
            let l = add_listeners_ops(el.events@, next, succ(next), el.events@.len() as int);
            lemma_listeners_within(el.events@, next, succ(next), el.events@.len() as int, next, next as int, hi);
            lemma_within_concat(c0, a, next, next as int, hi);
            lemma_within_concat(c0 + a, l, next, next as int, hi);
            lemma_within_concat(c0 + a + l, c, next, next as int, hi);
            let pre = c0 + a + l + c;
            lemma_apply_within(p, s, pre, next, next as int, hi);
            let ins = insert_op(p, next, anchor);
            assert(ops == pre + seq![ins]);
            lemma_apply_ops_concat(p, s, pre, seq![ins]);
            lemma_apply_one(p, s, ins);
            lemma_absent_in_range(s, next, next as int, hi);
            lemma_without_absent(s, next);
            let o = out->Element_0;
            assert(dom_nodes(out) == seq![next]);
        },
        VNode::Text(t, _) => {
            let c0 = seq![DomOp::CreateText { node: next, text: t }];
            let ins = insert_op(p, next, anchor);
            assert(ops == c0 + seq![ins]);
            lemma_apply_one(p, s, c0[0]);
            lemma_apply_ops_concat(p, s, c0, seq![ins]);
            lemma_apply_one(p, s, ins);
            lemma_absent_in_range(s, next, next as int, hi);
            lemma_without_absent(s, next);
            assert(dom_nodes(out) == seq![next]);
        },
        VNode::Fragment(cs) => {
            assert(sizes(cs@, cs@.len() as int) < size(v));
            let o = out->Fragment_0;
            lemma_mount_fragment_places(cs@, o@, cs@.len() as int, p, anchor, svg, next, s);
        },
        VNode::Dynamic(_, _) => {
            lemma_apply_one(p, s, ops[0]);
            assert(ops == seq![ops[0]]);
            lemma_absent_in_range(s, next, next as int, hi);
            lemma_without_absent(s, next);
            assert(dom_nodes(out) == seq![next]);
        },
        VNode::Empty => {
            assert(dom_nodes(out) == Seq::<NodeId>::empty());
            lemma_place_nothing(s, anchor);
        },
    }
}

/// Mounting the first `k` members of a fragment places their DOM nodes, in
/// order, before the anchor.
proof fn lemma_mount_fragment_places(
    cs: Seq<VNode>,
    outs: Seq<VNode>,
    k: int,
    p: NodeId,
    anchor: Option<NodeId>,
    svg: bool,
    next: u64,
    s: Seq<NodeId>,
)
    requires
        mounted_all(cs, outs, k, svg, next),
        0 <= k <= cs.len(),
        k <= outs.len(),
        next + ids_before(cs, k) <= u64::MAX,
        p < next,
        forall|j: int| 0 <= j < s.len() ==> s[j] < next,
        anchor matches Some(a) ==> a < next,
    ensures
        apply_ops(p, s, mount_fragment_spec(cs, k, p, anchor, svg, next).0) == place(
            s,
            dom_nodes_all(outs, k),
            anchor,
        ),
        forall|j: int|
            0 <= j < dom_nodes_all(outs, k).len() ==> next <= #[trigger] dom_nodes_all(outs, k)[j] < next
                + ids_before(cs, k),
    decreases sizes(cs, k), 1nat,
{
    if k == 0 {
        lemma_place_nothing(s, anchor);
        assert(dom_nodes_all(outs, k) == Seq::<NodeId>::empty());
    } else {
        assert(sizes(cs, k) == sizes(cs, k - 1) + size(cs[k - 1]));
        lemma_mount_fragment_places(cs, outs, k - 1, p, anchor, svg, next, s);
        let start = advance(next, ids_before(cs, k - 1));
        lemma_advance_exact(next, ids_before(cs, k - 1));
        let d1 = dom_nodes_all(outs, k - 1);
        let s1 = place(s, d1, anchor);
        lemma_place_below(s, d1, anchor, start as int);
        lemma_mount_places_nodes(cs[k - 1], outs[k - 1], p, anchor, svg, start, s1);
        let d2 = dom_nodes(outs[k - 1]);
        let a = mount_fragment_spec(cs, k - 1, p, anchor, svg, next).0;
        let b = mount_spec(cs[k - 1], p, anchor, svg, start).0;
        lemma_apply_ops_concat(p, s, a, b);
        if let Some(x) = anchor {
            assert(!d1.contains(x)) by {
                if d1.contains(x) {
                    let w = choose|w: int| 0 <= w < d1.len() && d1[w] == x;
                    assert(next <= d1[w]);
                }
            }
        }
        lemma_place_twice(s, d1, d2, anchor);
        assert(dom_nodes_all(outs, k) == d1 + d2);
        let d = d1 + d2;
        assert forall|j: int| 0 <= j < d.len() implies next <= #[trigger] d[j] < next + ids_before(cs, k) by {
            if j < d1.len() {
                assert(d[j] == d1[j]);
            } else {
                assert(d[j] == d2[j - d1.len()]);
            }
        }
    }
}

/// Mounting an application shows exactly the rendered tree: clearing the
/// mount point `mp` and then mounting the tree into it (as
/// `App::mount` plans) leaves `mp` with the DOM nodes of the mounted tree as
/// its only children, in order, whatever children it had before.
pub proof fn lemma_app_mount_shows_tree(vnode: VNode, out: VNode, mp: NodeId, next: u64, s: Seq<NodeId>)
    requires
        mounted(vnode, out, false, next),
        next + mount_ids(vnode) <= u64::MAX,
        mp < next,
    ensures
        apply_ops(mp, s, seq![DomOp::ClearChildren { node: mp }] + mount_spec(vnode, mp, None, false, next).0)
            == dom_nodes(out),
{
    let clear = seq![DomOp::ClearChildren { node: mp }];
    lemma_apply_ops_concat(mp, s, clear, mount_spec(vnode, mp, None, false, next).0);
    lemma_apply_one(mp, s, clear[0]);
    let e = Seq::<NodeId>::empty();
    lemma_mount_places_nodes(vnode, out, mp, None, false, next, e);
    assert(e + dom_nodes(out) =~= dom_nodes(out));
}

// ---------------------------------------------------------------------------
// Removal, applied to the model
// ---------------------------------------------------------------------------

/// `s` with every node of `ds` taken out.
pub open spec fn without_all(s: Seq<NodeId>, ds: Seq<NodeId>) -> Seq<NodeId>
    decreases ds.len(),
{
    if ds.len() == 0 {
        s
    } else {
        without(without_all(s, ds.drop_last()), ds.last())
    }
}

/// Taking out `x` keeps every other node and only those.
pub proof fn lemma_without_contains(s: Seq<NodeId>, x: NodeId, y: NodeId)
    ensures
        without(s, x).contains(y) <==> (s.contains(y) && y != x),
    decreases s.len(),
{
    if s.len() > 0 {
        let t = s.subrange(1, s.len() as int);
        lemma_without_contains(t, x, y);
        assert(s =~= seq![s[0]] + t);
        if s.contains(y) && y != x && s[0] != y {
            let w = choose|w: int| 0 <= w < s.len() && s[w] == y;
            assert(t[w - 1] == y);
        }
        if t.contains(y) {
            let w = choose|w: int| 0 <= w < t.len() && t[w] == y;
            assert(s[w + 1] == y);
        }
        if s[0] != x {
            let r = seq![s[0]] + without(t, x);
            if r.contains(y) {
                let w = choose|w: int| 0 <= w < r.len() && r[w] == y;
                if w > 0 {
                    assert(without(t, x)[w - 1] == y);
                } else {
                    assert(s[0] == y);
                }
            }
            if without(t, x).contains(y) {
                let w = choose|w: int| 0 <= w < without(t, x).len() && without(t, x)[w] == y;
                assert(r[w + 1] == y);
            }
            assert(r[0] == s[0]);
        }
    }
}

/// Removing the nodes `ds` from `p` takes each of them out of its child list.
pub proof fn lemma_apply_removals(p: NodeId, s: Seq<NodeId>, ds: Seq<NodeId>)
    ensures
        apply_ops(p, s, removals(p, ds)) == without_all(s, ds),
    decreases ds.len(),
{
    if ds.len() > 0 {
        lemma_apply_removals(p, s, ds.drop_last());
        assert(removals(p, ds).drop_last() =~= removals(p, ds.drop_last()));
    }
}

/// What is left once the nodes `ds` are taken out: the other nodes.
pub proof fn lemma_without_all_contains(s: Seq<NodeId>, ds: Seq<NodeId>, y: NodeId)
    ensures
        without_all(s, ds).contains(y) <==> (s.contains(y) && !ds.contains(y)),
    decreases ds.len(),
{
    if ds.len() > 0 {
        let d = ds.drop_last();
        lemma_without_all_contains(s, d, y);
        lemma_without_contains(without_all(s, d), ds.last(), y);
        assert(ds =~= d.push(ds.last()));
        if ds.contains(y) {
            let w = choose|w: int| 0 <= w < ds.len() && ds[w] == y;
            if w < d.len() {
                assert(d[w] == y);
            }
        }
        if d.contains(y) {
            let w = choose|w: int| 0 <= w < d.len() && d[w] == y;
            assert(ds[w] == y);
        }
    }
}

/// Removing a node takes all of it out of its parent: applying the
/// operations that remove `v` from `p` leaves in `p`'s child list exactly
/// the nodes that were there and that `v` did not place (for a fragment,
/// none of its members' nodes stays).
pub proof fn lemma_removed_node_leaves(p: NodeId, s: Seq<NodeId>, v: VNode, y: NodeId)
    ensures
        apply_ops(p, s, remove_node_ops(p, v)).contains(y) <==> (s.contains(y) && !dom_nodes(v).contains(y)),
{
    lemma_apply_removals(p, s, dom_nodes(v));
    lemma_without_all_contains(s, dom_nodes(v), y);
}

// ---------------------------------------------------------------------------
// The DOM nodes of a list of children, one per child
// ---------------------------------------------------------------------------

/// The DOM nodes of the first `k` nodes, one each.
spec fn own_doms(cs: Seq<VNode>, k: int) -> Seq<NodeId> {
    Seq::new(k as nat, |i: int| spec_dom_node(cs[i])->0)
}

proof fn lemma_own_doms(cs: Seq<VNode>, k: int)
    requires
        0 <= k <= cs.len(),
        forall|i: int| 0 <= i < k ==> !(cs[i] is Fragment) && spec_dom_node(#[trigger] cs[i]) is Some,
    ensures
        dom_nodes_all(cs, k) == own_doms(cs, k),
    decreases k,
{
    if k > 0 {
        lemma_own_doms(cs, k - 1);
        assert(sizes(cs, k) == sizes(cs, k - 1) + size(cs[k - 1]));
        assert(dom_nodes(cs[k - 1]) == seq![spec_dom_node(cs[k - 1])->0]);
        assert(dom_nodes_all(cs, k) =~= own_doms(cs, k));
    } else {
        assert(own_doms(cs, k) =~= Seq::<NodeId>::empty());
    }
}

proof fn lemma_attribute_ops_within(old: Seq<(String, String)>, new: Seq<(String, String)>, node: NodeId, k: int, q: NodeId, lo: int, hi: int)
    ensures
        ops_within(set_changed_attrs_ops(old, new, node, k), q, lo, hi),
        ops_within(remove_dropped_attrs_ops(old, new, node, k), q, lo, hi),
    decreases k,
{
    if k > 0 {
        lemma_attribute_ops_within(old, new, node, k - 1, q, lo, hi);
        let a = set_changed_attrs_ops(old, new, node, k - 1);
        let b = remove_dropped_attrs_ops(old, new, node, k - 1);
        assert forall|i: int| 0 <= i < a.len() + 1 implies op_within(
            #[trigger] a.push(DomOp::SetAttribute { node, name: new[k - 1].0, value: new[k - 1].1 })[i],
            q,
            lo,
            hi,
        ) by {
            if i < a.len() {
                assert(op_within(a[i], q, lo, hi));
            }
        }
        assert forall|i: int| 0 <= i < b.len() + 1 implies op_within(
            #[trigger] b.push(DomOp::RemoveAttribute { node, name: old[k - 1].0 })[i],
            q,
            lo,
            hi,
        ) by {
            if i < b.len() {
                assert(op_within(b[i], q, lo, hi));
            }
        }
    }
}

/// Taking out a node that occurs once, at `i`, removes position `i`.
proof fn lemma_without_at(t: Seq<NodeId>, i: int)
    requires
        0 <= i < t.len(),
        forall|a: int, b: int| 0 <= a < b < t.len() ==> t[a] != t[b],
    ensures
        without(t, t[i]) == t.remove(i),
    decreases t.len(),
{
    let r = t.subrange(1, t.len() as int);
    if i == 0 {
        assert(!r.contains(t[0])) by {
            if r.contains(t[0]) {
                let w = choose|w: int| 0 <= w < r.len() && r[w] == t[0];
                assert(t[w + 1] == t[0]);
            }
        }
        lemma_without_absent(r, t[0]);
        assert(r =~= t.remove(0));
    } else {
        assert(t[0] != t[i]);
        assert(r[i - 1] == t[i]);
        lemma_without_at(r, i - 1);
        assert(seq![t[0]] + r.remove(i - 1) =~= t.remove(i));
    }
}

// ---------------------------------------------------------------------------
// Order in a child list without repeated nodes
// ---------------------------------------------------------------------------

/// No node occurs twice.
pub open spec fn distinct_nodes(l: Seq<NodeId>) -> bool {
    forall|a: int, b: int| 0 <= a < b < l.len() ==> l[a] != l[b]
}

/// `y` comes before `z` in `l`.
pub open spec fn before(l: Seq<NodeId>, y: NodeId, z: NodeId) -> bool {
    first_index(l, y) < first_index(l, z)
}

proof fn lemma_index_of(l: Seq<NodeId>, j: int)
    requires
        distinct_nodes(l),
        0 <= j < l.len(),
    ensures
        first_index(l, l[j]) == j,
{
    lemma_first_index_is(l, l[j], j);
}

proof fn lemma_index_in(l: Seq<NodeId>, y: NodeId)
    requires
        l.contains(y),
    ensures
        0 <= first_index(l, y) < l.len(),
        l[first_index(l, y)] == y,
{
    lemma_first_index(l, y);
}

/// Taking a node out of a list without repeats keeps the order of the others.
proof fn lemma_remove_keeps_order(l: Seq<NodeId>, d: NodeId)
    requires
        distinct_nodes(l),
        l.contains(d),
    ensures
        distinct_nodes(without(l, d)),
        forall|y: NodeId| #[trigger] without(l, d).contains(y) <==> (l.contains(y) && y != d),
        forall|y: NodeId, z: NodeId|
            l.contains(y) && l.contains(z) && y != d && z != d ==> (#[trigger] before(without(l, d), y, z)
                <==> #[trigger] before(l, y, z)),
{
    lemma_index_in(l, d);
    let w = first_index(l, d);
    lemma_without_at(l, w);
    let r = l.remove(w);
    assert(without(l, d) == r);
    assert forall|y: NodeId| #[trigger] r.contains(y) <==> (l.contains(y) && y != d) by {
        lemma_without_contains(l, d, y);
    }
    assert forall|y: NodeId, z: NodeId|
        l.contains(y) && l.contains(z) && y != d && z != d implies (#[trigger] before(r, y, z)
            <==> #[trigger] before(l, y, z)) by {
        lemma_index_in(l, y);
        lemma_index_in(l, z);
        let jy = first_index(l, y);
        let jz = first_index(l, z);
        let ry = if jy < w { jy } else { jy - 1 };
        let rz = if jz < w { jz } else { jz - 1 };
        assert(r[ry] == y);
        assert(r[rz] == z);
        lemma_index_of(r, ry);
        lemma_index_of(r, rz);
    }
}

/// Placing a new node into a list without repeats keeps the order of the
/// others; the node lands just before the anchor, or last.
proof fn lemma_insert_keeps_order(l: Seq<NodeId>, x: NodeId, anchor: Option<NodeId>)
    requires
        distinct_nodes(l),
        !l.contains(x),
        anchor matches Some(a) ==> l.contains(a),
    ensures
        distinct_nodes(place(l, seq![x], anchor)),
        forall|y: NodeId| #[trigger] place(l, seq![x], anchor).contains(y) <==> (l.contains(y) || y == x),
        forall|y: NodeId, z: NodeId|
            l.contains(y) && l.contains(z) ==> (#[trigger] before(place(l, seq![x], anchor), y, z)
                <==> #[trigger] before(l, y, z)),
        anchor matches Some(a) ==> first_index(place(l, seq![x], anchor), x) + 1 == first_index(
            place(l, seq![x], anchor),
            a,
        ),
        anchor is None ==> forall|y: NodeId|
            #[trigger] l.contains(y) ==> before(place(l, seq![x], anchor), y, x),
        anchor matches Some(a) ==> forall|y: NodeId|
            #[trigger] l.contains(y) && before(l, y, a) ==> before(place(l, seq![x], anchor), y, x),
        anchor matches Some(a) ==> before(place(l, seq![x], anchor), x, a),
{
    let i = match anchor {
        Some(a) => first_index(l, a),
        None => l.len() as int,
    };
    if let Some(a) = anchor {
        lemma_index_in(l, a);
    }
    let r = place(l, seq![x], anchor);
    assert(r =~= l.insert(i, x));
    assert(r[i] == x);
    assert forall|a: int, b: int| 0 <= a < b < r.len() implies r[a] != r[b] by {
        if a == i {
            assert(l.contains(r[b])) by {
                assert(r[b] == l[b - 1]);
            }
        } else if b == i {
            assert(l.contains(r[a])) by {
                assert(r[a] == l[a]);
            }
        } else {
            let la = if a < i { a } else { a - 1 };
            let lb = if b < i { b } else { b - 1 };
            assert(r[a] == l[la]);
            assert(r[b] == l[lb]);
        }
    }
    assert forall|y: NodeId| #[trigger] r.contains(y) <==> (l.contains(y) || y == x) by {
        lemma_place_contains_one(l, x, i, y);
    }
    lemma_index_of(r, i);
    assert forall|y: NodeId, z: NodeId| l.contains(y) && l.contains(z) implies (#[trigger] before(r, y, z)
        <==> #[trigger] before(l, y, z)) by {
        lemma_index_in(l, y);
        lemma_index_in(l, z);
        let jy = first_index(l, y);
        let jz = first_index(l, z);
        let ry = if jy < i { jy } else { jy + 1 };
        let rz = if jz < i { jz } else { jz + 1 };
        assert(r[ry] == y);
        assert(r[rz] == z);
        lemma_index_of(r, ry);
        lemma_index_of(r, rz);
    }
    if let Some(a) = anchor {
        assert(r[i + 1] == a);
        lemma_index_of(r, i + 1);
        assert forall|y: NodeId| #[trigger] l.contains(y) && before(l, y, a) implies before(r, y, x) by {
            lemma_index_in(l, y);
            let jy = first_index(l, y);
            lemma_index_of(l, i);
            assert(jy < i);
            assert(r[jy] == y);
            lemma_index_of(r, jy);
        }
    } else {
        assert forall|y: NodeId| #[trigger] l.contains(y) implies before(r, y, x) by {
            lemma_index_in(l, y);
            let jy = first_index(l, y);
            assert(r[jy] == y);
            lemma_index_of(r, jy);
        }
    }
}

proof fn lemma_place_contains_one(l: Seq<NodeId>, x: NodeId, i: int, y: NodeId)
    requires
        0 <= i <= l.len(),
    ensures
        l.insert(i, x).contains(y) <==> (l.contains(y) || y == x),
{
    let r = l.insert(i, x);
    if r.contains(y) {
        let w = choose|w: int| 0 <= w < r.len() && r[w] == y;
        if w < i {
            assert(l[w] == y);
        } else if w > i {
            assert(l[w - 1] == y);
        }
    }
    if l.contains(y) {
        let w = choose|w: int| 0 <= w < l.len() && l[w] == y;
        if w < i {
            assert(r[w] == y);
        } else {
            assert(r[w + 1] == y);
        }
    }
    if y == x {
        assert(r[i] == x);
    }
}

/// A list without repeats that holds exactly the nodes of `d`, with the
/// nodes of `d` in the order `d` gives them, is `d`.
proof fn lemma_same_nodes_in_order(l: Seq<NodeId>, d: Seq<NodeId>)
    requires
        distinct_nodes(l),
        forall|y: NodeId| #[trigger] l.contains(y) <==> d.contains(y),
        forall|a: int, b: int| 0 <= a < b < d.len() ==> before(l, #[trigger] d[a], #[trigger] d[b]),
    ensures
        l == d,
{
    assert forall|t: int| 0 <= t < d.len() implies first_index(l, #[trigger] d[t]) == t by {
        lemma_position_is_rank(l, d, t);
    }
    assert(l.len() == d.len()) by {
        if l.len() > d.len() {
            let y = l[d.len() as int];
            assert(l.contains(y));
            let w = choose|w: int| 0 <= w < d.len() && d[w] == y;
            assert(first_index(l, d[w]) == w);
            lemma_index_of(l, d.len() as int);
        } else if l.len() < d.len() {
            let t = l.len() as int;
            assert(first_index(l, d[t]) == t);
            assert(d.contains(d[t]));
            lemma_index_in(l, d[t]);
        }
    }
    assert forall|t: int| 0 <= t < d.len() implies l[t] == d[t] by {
        assert(first_index(l, d[t]) == t);
        assert(d.contains(d[t]));
        lemma_index_in(l, d[t]);
    }
    assert(l =~= d);
}

proof fn lemma_position_is_rank(l: Seq<NodeId>, d: Seq<NodeId>, t: int)
    requires
        distinct_nodes(l),
        forall|y: NodeId| #[trigger] l.contains(y) <==> d.contains(y),
        forall|a: int, b: int| 0 <= a < b < d.len() ==> before(l, #[trigger] d[a], #[trigger] d[b]),
        0 <= t < d.len(),
    ensures
        first_index(l, d[t]) == t,
    decreases t,
{
    if t > 0 {
        lemma_position_is_rank(l, d, t - 1);
    }
    assert(d.contains(d[t]));
    lemma_index_in(l, d[t]);
    let f = first_index(l, d[t]);
    // f >= t: the earlier nodes of d come before d[t]
    if t > 0 {
        assert(before(l, d[t - 1], d[t]));
    }
    // f <= t: position t is held by some d[u], which cannot come after d[t]
    if f > t {
        let y = l[t];
        assert(l.contains(y));
        let u = choose|u: int| 0 <= u < d.len() && d[u] == y;
        lemma_index_of(l, t);
        if u < t {
            lemma_position_is_rank(l, d, u);
        } else if u > t {
            assert(before(l, d[t], d[u]));
        }
    }
}

// ---------------------------------------------------------------------------
// Keyed children: the order of the parent's list
// ---------------------------------------------------------------------------

/// No two nodes of `cs` carry the same key (nodes without a key may be many).
pub open spec fn distinct_keys(cs: Seq<VNode>) -> bool {
    forall|a: int, b: int|
        0 <= a < b < cs.len() && (#[trigger] spec_key(cs[a]) is Some || #[trigger] spec_key(cs[b]) is Some) ==> spec_key(cs[a])
            != spec_key(cs[b])
}

/// With distinct keys, the node found for a key is the one carrying it.
proof fn lemma_key_found(cs: Seq<VNode>, key: Seq<char>, i: int, k: int)
    requires
        distinct_keys(cs),
        0 <= i < k <= cs.len(),
        spec_key(cs[i]) == Some(key),
    ensures
        last_key_index(cs, key, k) == Some(i),
    decreases k,
{
    if k - 1 != i {
        assert(spec_key(cs[k - 1]) != spec_key(cs[i]));
        lemma_key_found(cs, key, i, k - 1);
    }
}

/// The old nodes left once the unused old children are removed, in their
/// old order.
proof fn lemma_keyed_removals_model(
    oc: Seq<VNode>,
    reuse: Seq<Option<usize>>,
    p: NodeId,
    k: int,
    s: Seq<NodeId>,
)
    requires
        0 <= k <= oc.len(),
        s.len() == oc.len(),
        reuse.len() == oc.len(),
        distinct_nodes(s),
        forall|i: int| 0 <= i < oc.len() ==> #[trigger] dom_nodes(oc[i]) == seq![s[i]],
    ensures
        distinct_nodes(apply_ops(p, s, keyed_removals(oc, reuse, p, k))),
        forall|i: int|
            0 <= i < oc.len() ==> (apply_ops(p, s, keyed_removals(oc, reuse, p, k)).contains(#[trigger] s[i]) <==> (i
                >= k || reuse[i] is Some)),
        forall|y: NodeId| #[trigger] apply_ops(p, s, keyed_removals(oc, reuse, p, k)).contains(y) ==> s.contains(y),
        forall|a: int, b: int|
            0 <= a < b < oc.len() && apply_ops(p, s, keyed_removals(oc, reuse, p, k)).contains(s[a])
                && apply_ops(p, s, keyed_removals(oc, reuse, p, k)).contains(s[b]) ==> before(
                apply_ops(p, s, keyed_removals(oc, reuse, p, k)),
                #[trigger] s[a],
                #[trigger] s[b],
            ),
    decreases k,
{
    let l = apply_ops(p, s, keyed_removals(oc, reuse, p, k));
    if k == 0 {
        assert forall|i: int| 0 <= i < oc.len() implies l.contains(#[trigger] s[i]) by {
            assert(l[i] == s[i]);
        }
        assert forall|a: int, b: int|
            0 <= a < b < oc.len() && l.contains(s[a]) && l.contains(s[b]) implies before(
                l,
                #[trigger] s[a],
                #[trigger] s[b],
            ) by {
            lemma_index_of(s, a);
            lemma_index_of(s, b);
        }
    } else {
        lemma_keyed_removals_model(oc, reuse, p, k - 1, s);
        let l0 = apply_ops(p, s, keyed_removals(oc, reuse, p, k - 1));
        if reuse[k - 1] is None {
            let rm = remove_node_ops(p, oc[k - 1]);
            assert(rm =~= seq![DomOp::RemoveChild { parent: p, child: s[k - 1] }]);
            lemma_apply_ops_concat(p, s, keyed_removals(oc, reuse, p, k - 1), rm);
            lemma_apply_one(p, l0, rm[0]);
            assert(l0.contains(s[k - 1]));
            lemma_remove_keeps_order(l0, s[k - 1]);
            assert(l == without(l0, s[k - 1]));
            assert forall|i: int| 0 <= i < oc.len() implies (l.contains(#[trigger] s[i]) <==> (i >= k
                || reuse[i] is Some)) by {
                if i != k - 1 {
                    assert(s[i] != s[k - 1]);
                }
            }
        } else {
            assert(keyed_removals(oc, reuse, p, k) =~= keyed_removals(oc, reuse, p, k - 1));
        }
    }
}

/// The DOM node recorded for `outs[j]`.
spec fn xnode(outs: Seq<VNode>, j: int) -> NodeId {
    spec_dom_node(outs[j])->0
}

/// Old child `i` is reused by a new child before position `k`.
spec fn reused_before(reuse: Seq<Option<usize>>, i: int, k: int) -> bool {
    reuse[i] is Some && (reuse[i]->0 as int) < k
}

/// The state of the parent's child list `l` once the new children from `k`
/// on are in place: `nid` is the next fresh identifier and `anchor` the node
/// the children from `k` on start with.
spec fn keyed_inv(
    oc: Seq<VNode>,
    nc: Seq<VNode>,
    outs: Seq<VNode>,
    lis: Seq<usize>,
    next: u64,
    s: Seq<NodeId>,
    k: int,
    l: Seq<NodeId>,
    nid: u64,
    anchor: Option<NodeId>,
) -> bool {
    let n = nc.len() as int;
    let m = oc.len() as int;
    let reuse = reuse_map(oc, nc);
    &&& distinct_nodes(l)
    &&& next <= nid
    &&& anchor == if k < n { Some(xnode(outs, k)) } else { None }
    &&& forall|j: int| k <= j < n ==> !(#[trigger] outs[j] is Fragment) && spec_dom_node(outs[j]) is Some
    &&& forall|j: int| k <= j < n ==> l.contains(#[trigger] xnode(outs, j))
    &&& forall|j: int|
        k <= j < n ==> (keyed_source(oc, nc, j) is Some && #[trigger] xnode(outs, j) == s[keyed_source(
            oc,
            nc,
            j,
        )->0]) || next <= xnode(outs, j)
    &&& forall|i: int| 0 <= i < m && #[trigger] reused_before(reuse, i, k) ==> l.contains(s[i])
    &&& forall|y: NodeId| #[trigger] l.contains(y) ==> y < nid
    &&& forall|y: NodeId|
        #[trigger] l.contains(y) ==> (exists|j: int| k <= j < n && y == #[trigger] xnode(outs, j)) || (exists|i: int|
            0 <= i < m && y == s[i] && #[trigger] reused_before(reuse, i, k))
    &&& forall|j1: int, j2: int|
        k <= j1 < j2 < n ==> before(l, #[trigger] xnode(outs, j1), #[trigger] xnode(outs, j2))
    &&& forall|i1: int, i2: int|
        0 <= i1 < i2 < m && lis.contains(i1 as usize) && lis.contains(i2 as usize) && l.contains(s[i1]) && l.contains(
            s[i2],
        ) ==> before(l, #[trigger] s[i1], #[trigger] s[i2])
    &&& k < n ==> forall|i: int|
        0 <= i < m && lis.contains(i as usize) && #[trigger] reused_before(reuse, i, k) ==> before(
            l,
            s[i],
            xnode(outs, k),
        )
}

/// What the keyed setting gives each step: the old child that new child
/// `k` takes over (if any) is reused by `k` alone, and no later new child
/// takes it over.
spec fn source_facts(oc: Seq<VNode>, nc: Seq<VNode>, k: int) -> bool {
    let m = oc.len() as int;
    let n = nc.len() as int;
    let reuse = reuse_map(oc, nc);
    &&& forall|i: int| 0 <= i < m && reuse[i] == Some(k as usize) ==> keyed_source(oc, nc, k) == Some(i)
    &&& keyed_source(oc, nc, k) matches Some(oi) ==> 0 <= oi < m && reuse[oi] == Some(k as usize)
    &&& forall|j: int|
        k < j < n && keyed_source(oc, nc, k) is Some ==> #[trigger] keyed_source(oc, nc, j) != keyed_source(
            oc,
            nc,
            k,
        )
}

/// Placing the node of new child `k` (moved from its old place, or fresh)
/// just before the nodes of the children after it keeps the invariant.
proof fn lemma_keyed_place_step(
    oc: Seq<VNode>,
    nc: Seq<VNode>,
    outs: Seq<VNode>,
    lis: Seq<usize>,
    next: u64,
    s: Seq<NodeId>,
    k: int,
    big_l: Seq<NodeId>,
    nid0: u64,
    anc0: Option<NodeId>,
    l1: Seq<NodeId>,
    x: NodeId,
    nid: u64,
)
    requires
        0 <= k < nc.len() <= usize::MAX,
        outs.len() == nc.len(),
        s.len() == oc.len(),
        distinct_nodes(s),
        forall|i: int| 0 <= i < s.len() ==> s[i] < next,
        keyed_inv(oc, nc, outs, lis, next, s, k + 1, big_l, nid0, anc0),
        source_facts(oc, nc, k),
        !(outs[k] is Fragment),
        spec_dom_node(outs[k]) == Some(x),
        l1 == if keyed_source(oc, nc, k) is Some {
            without(big_l, s[keyed_source(oc, nc, k)->0])
        } else {
            big_l
        },
        (keyed_source(oc, nc, k) is Some && x == s[keyed_source(oc, nc, k)->0] && !lis.contains(
            keyed_source(oc, nc, k)->0 as usize,
        ) && nid0 <= nid) || (x == nid0 && nid0 < nid),
    ensures
        keyed_inv(oc, nc, outs, lis, next, s, k, place(l1, seq![x], anc0), nid, Some(x)),
{
    let n = nc.len() as int;
    let m = oc.len() as int;
    let reuse = reuse_map(oc, nc);
    let src = keyed_source(oc, nc, k);
    let l = place(l1, seq![x], anc0);
    let moved = src is Some && x == s[src->0];
    if let Some(oi) = src {
        assert(reused_before(reuse, oi, k + 1));
        assert(big_l.contains(s[oi]));
        lemma_remove_keeps_order(big_l, s[oi]);
    }
    // l1 is part of big_l
    assert forall|y: NodeId| #[trigger] l1.contains(y) implies big_l.contains(y) && (src matches Some(oi) ==> y
        != s[oi]) by {}
    assert(!l1.contains(x)) by {
        if l1.contains(x) && !moved {
            assert(big_l.contains(x));
        }
    }
    // the nodes of the later children stay
    assert forall|j: int| k < j < n implies l1.contains(#[trigger] xnode(outs, j)) by {
        assert(big_l.contains(xnode(outs, j)));
        if let Some(oi) = src {
            if keyed_source(oc, nc, j) is Some && xnode(outs, j) == s[keyed_source(oc, nc, j)->0] {
                let oj = keyed_source(oc, nc, j)->0;
                assert(oj != oi);
                lemma_last_key_index_bound(oc, spec_key(nc[j])->0, m);
                assert(0 <= oj < m);
                assert(s[oj] != s[oi]);
            } else {
                assert(next <= xnode(outs, j));
            }
        }
    }
    if k + 1 < n {
        assert(anc0 == Some(xnode(outs, k + 1)));
        assert(l1.contains(xnode(outs, k + 1)));
    }
    lemma_insert_keeps_order(l1, x, anc0);
    // old children reused before k stay
    assert forall|i: int| 0 <= i < m && #[trigger] reused_before(reuse, i, k) implies l.contains(s[i]) by {
        assert(reused_before(reuse, i, k + 1));
        assert(big_l.contains(s[i]));
        if let Some(oi) = src {
            assert(i != oi);
            assert(s[i] != s[oi]);
        }
        assert(l1.contains(s[i]));
    }
    assert forall|y: NodeId| #[trigger] l.contains(y) implies y < nid by {
        if y != x {
            assert(big_l.contains(y));
        }
    }
    assert forall|y: NodeId| #[trigger] l.contains(y) implies (exists|j: int| k <= j < n && y == #[trigger] xnode(outs, j))
        || (exists|i: int| 0 <= i < m && y == s[i] && #[trigger] reused_before(reuse, i, k)) by {
        if y == x {
            assert(y == xnode(outs, k));
        } else {
            assert(big_l.contains(y));
            if exists|j: int| k + 1 <= j < n && y == #[trigger] xnode(outs, j) {
                let j = choose|j: int| k + 1 <= j < n && y == #[trigger] xnode(outs, j);
                assert(k <= j < n && y == xnode(outs, j));
            } else {
                let i = choose|i: int| 0 <= i < m && y == s[i] && #[trigger] reused_before(reuse, i, k + 1);
                if reuse[i] == Some(k as usize) {
                    assert(src == Some(i));
                    assert(y != s[i]);
                }
                assert(reused_before(reuse, i, k));
            }
        }
    }
    assert forall|j1: int, j2: int| k <= j1 < j2 < n implies before(
        l,
        #[trigger] xnode(outs, j1),
        #[trigger] xnode(outs, j2),
    ) by {
        assert(l1.contains(xnode(outs, j2)));
        if j1 == k {
            assert(xnode(outs, k) == x);
            assert(anc0 == Some(xnode(outs, k + 1)));
            assert(before(l, x, xnode(outs, k + 1)));
            if j2 > k + 1 {
                assert(before(big_l, xnode(outs, k + 1), xnode(outs, j2)));
                assert(l1.contains(xnode(outs, k + 1)));
                assert(before(l1, xnode(outs, k + 1), xnode(outs, j2)));
                assert(before(l, xnode(outs, k + 1), xnode(outs, j2)));
            }
        } else {
            assert(before(big_l, xnode(outs, j1), xnode(outs, j2)));
            assert(l1.contains(xnode(outs, j1)));
            assert(before(l1, xnode(outs, j1), xnode(outs, j2)));
            assert(before(l, xnode(outs, j1), xnode(outs, j2)));
        }
    }
    assert forall|i1: int, i2: int|
        0 <= i1 < i2 < m && lis.contains(i1 as usize) && lis.contains(i2 as usize) && l.contains(s[i1])
            && l.contains(s[i2]) implies before(l, #[trigger] s[i1], #[trigger] s[i2]) by {
        if s[i1] == x || s[i2] == x {
            if moved {
                let oi = src->0;
                if s[i1] == x {
                    assert(i1 == oi);
                } else {
                    assert(i2 == oi);
                }
            }
        }
        assert(l1.contains(s[i1]) && l1.contains(s[i2]));
        assert(before(big_l, s[i1], s[i2]));
        assert(before(l1, s[i1], s[i2]));
    }
    assert forall|i: int| 0 <= i < m && lis.contains(i as usize) && #[trigger] reused_before(reuse, i, k) implies before(
        l,
        s[i],
        xnode(outs, k),
    ) by {
        assert(reused_before(reuse, i, k + 1));
        assert(l1.contains(s[i])) by {
            assert(big_l.contains(s[i]));
            if let Some(oi) = src {
                assert(i != oi);
                assert(s[i] != s[oi]);
            }
        }
        if k + 1 < n {
            assert(before(big_l, s[i], xnode(outs, k + 1)));
            assert(before(l1, s[i], xnode(outs, k + 1)));
        }
    }
}

/// New child `k` keeps a stable old node where it is: the invariant holds
/// with the list unchanged.
proof fn lemma_keyed_stable_step(
    oc: Seq<VNode>,
    nc: Seq<VNode>,
    outs: Seq<VNode>,
    lis: Seq<usize>,
    next: u64,
    s: Seq<NodeId>,
    k: int,
    big_l: Seq<NodeId>,
    nid0: u64,
    anc0: Option<NodeId>,
)
    requires
        0 <= k < nc.len() <= usize::MAX,
        oc.len() <= usize::MAX,
        outs.len() == nc.len(),
        s.len() == oc.len(),
        distinct_nodes(s),
        forall|i: int| 0 <= i < s.len() ==> s[i] < next,
        is_increasing_present_subsequence(reuse_map(oc, nc), lis),
        keyed_inv(oc, nc, outs, lis, next, s, k + 1, big_l, nid0, anc0),
        source_facts(oc, nc, k),
        keyed_source(oc, nc, k) is Some,
        lis.contains(keyed_source(oc, nc, k)->0 as usize),
        !(outs[k] is Fragment),
        spec_dom_node(outs[k]) == Some(s[keyed_source(oc, nc, k)->0]),
    ensures
        keyed_inv(oc, nc, outs, lis, next, s, k, big_l, nid0, Some(s[keyed_source(oc, nc, k)->0])),
{
    let n = nc.len() as int;
    let m = oc.len() as int;
    let reuse = reuse_map(oc, nc);
    let oi = keyed_source(oc, nc, k)->0;
    let x = s[oi];
    let l = big_l;
    assert(reused_before(reuse, oi, k + 1));
    assert(l.contains(x));
    assert(xnode(outs, k) == x);
    assert forall|j: int| k <= j < n implies l.contains(#[trigger] xnode(outs, j)) by {}
    assert forall|j: int| k <= j < n implies !(#[trigger] outs[j] is Fragment) && spec_dom_node(outs[j]) is Some by {}
    assert forall|j: int|
        k <= j < n implies (keyed_source(oc, nc, j) is Some && #[trigger] xnode(outs, j) == s[keyed_source(
            oc,
            nc,
            j,
        )->0]) || next <= xnode(outs, j) by {}
    assert forall|i: int| 0 <= i < m && #[trigger] reused_before(reuse, i, k) implies l.contains(s[i]) by {
        assert(reused_before(reuse, i, k + 1));
    }
    assert forall|y: NodeId| #[trigger] l.contains(y) implies (exists|j: int| k <= j < n && y == #[trigger] xnode(outs, j))
        || (exists|i: int| 0 <= i < m && y == s[i] && #[trigger] reused_before(reuse, i, k)) by {
        if exists|j: int| k + 1 <= j < n && y == #[trigger] xnode(outs, j) {
            let j = choose|j: int| k + 1 <= j < n && y == #[trigger] xnode(outs, j);
            assert(k <= j < n && y == xnode(outs, j));
        } else {
            let i = choose|i: int| 0 <= i < m && y == s[i] && #[trigger] reused_before(reuse, i, k + 1);
            if reuse[i] == Some(k as usize) {
                assert(i == oi);
                assert(y == xnode(outs, k));
            } else {
                assert(reused_before(reuse, i, k));
            }
        }
    }
    assert forall|j1: int, j2: int| k <= j1 < j2 < n implies before(
        l,
        #[trigger] xnode(outs, j1),
        #[trigger] xnode(outs, j2),
    ) by {
        if j1 == k {
            assert(before(l, x, xnode(outs, k + 1)));
            if j2 > k + 1 {
                assert(before(l, xnode(outs, k + 1), xnode(outs, j2)));
            }
        }
    }
    assert forall|i: int| 0 <= i < m && lis.contains(i as usize) && #[trigger] reused_before(reuse, i, k) implies before(
        l,
        s[i],
        xnode(outs, k),
    ) by {
        assert(reused_before(reuse, i, k + 1));
        assert(l.contains(s[i]));
        // the stable run is increasing in both positions, so i comes before oi
        let a = choose|a: int| 0 <= a < lis.len() && lis[a] == i as usize;
        let b = choose|b: int| 0 <= b < lis.len() && lis[b] == oi as usize;
        assert(lis[a] as int == i);
        assert(lis[b] as int == oi);
        assert(reuse[oi] == Some(k as usize));
        if a < b {
            assert(lis[a] < lis[b]);
        } else if b < a {
            assert(reuse[lis[b] as int]->0 < reuse[lis[a] as int]->0);
            assert(false);
        } else {
            assert(i == oi);
            assert(false);
        }
        assert(i < oi);
        assert(before(l, s[i], s[oi]));
    }
}

// ---------------------------------------------------------------------------
// Whole trees: every element's child list
// ---------------------------------------------------------------------------

/// No two members of the list carry the same key, and a list where some
/// member carries a key holds no empty node.
pub open spec fn key_uniform(cs: Seq<VNode>) -> bool {
    &&& distinct_keys(cs)
    &&& has_keyed(cs) ==> forall|i: int| 0 <= i < cs.len() ==> !(#[trigger] cs[i] is Empty)
}

/// Lists with the same keys, position by position, are alike in this.
proof fn lemma_key_uniform_same(a: Seq<VNode>, b: Seq<VNode>)
    requires
        a.len() == b.len(),
        forall|i: int| 0 <= i < a.len() ==> #[trigger] spec_key(b[i]) == spec_key(a[i]),
        forall|i: int| 0 <= i < a.len() ==> (#[trigger] b[i] is Empty) == (a[i] is Empty),
        key_uniform(a),
    ensures
        key_uniform(b),
{
    if has_keyed(b) {
        let w = choose|i: int| 0 <= i < b.len() && #[trigger] spec_key(b[i]) is Some;
        assert(spec_key(a[w]) is Some);
        assert(has_keyed(a));
        assert forall|i: int| 0 <= i < b.len() implies !(#[trigger] b[i] is Empty) by {
            assert((b[i] is Empty) == (a[i] is Empty));
        }
    }
    assert forall|x: int, y: int|
        0 <= x < y < b.len() && (#[trigger] spec_key(b[x]) is Some || #[trigger] spec_key(b[y]) is Some) implies spec_key(b[x])
            != spec_key(b[y]) by {
        assert(spec_key(b[x]) == spec_key(a[x]));
        assert(spec_key(b[y]) == spec_key(a[y]));
    }
}

/// A tree of elements, texts, dynamic nodes (whose rendered content counts
/// as the one node their slot names) and empty placeholders, in which no
/// two children of an element carry the same key, and no list of children
/// with a key in it holds an empty placeholder.
pub open spec fn plain(v: VNode) -> bool
    decreases size(v), 0nat,
{
    match v {
        VNode::Element(el) => {
            proof {
                assert(sizes(el.children@, el.children@.len() as int) < size(v));
            }
            plain_all(el.children@, el.children@.len() as int) && key_uniform(el.children@)
        },
        VNode::Text(_, _) => true,
        VNode::Dynamic(_, _) => true,
        VNode::Empty => true,
        _ => false,
    }
}

/// The first `k` nodes are such trees.
pub open spec fn plain_all(cs: Seq<VNode>, k: int) -> bool
    decreases sizes(cs, k), 1nat,
{
    if k <= 0 || k > cs.len() {
        true
    } else {
        proof {
            assert(sizes(cs, k) == sizes(cs, k - 1) + size(cs[k - 1]));
        }
        plain_all(cs, k - 1) && plain(cs[k - 1])
    }
}

/// The DOM nodes recorded anywhere in the tree.
pub open spec fn tree_ids(v: VNode) -> Set<NodeId>
    decreases size(v), 0nat,
{
    match v {
        VNode::Element(el) => {
            proof {
                assert(sizes(el.children@, el.children@.len() as int) < size(v));
            }
            let own = match el.dom_ref {
                Some(d) => set![d],
                None => Set::empty(),
            };
            own.union(tree_ids_all(el.children@, el.children@.len() as int))
        },
        VNode::Text(_, d) => match d {
            Some(x) => set![x],
            None => Set::empty(),
        },
        VNode::Fragment(cs) => {
            proof {
                assert(sizes(cs@, cs@.len() as int) < size(v));
            }
            tree_ids_all(cs@, cs@.len() as int)
        },
        VNode::Dynamic(_, d) => match d {
            Some(x) => set![x],
            None => Set::empty(),
        },
        _ => Set::empty(),
    }
}

/// The DOM nodes recorded anywhere in the first `k` trees.
pub open spec fn tree_ids_all(cs: Seq<VNode>, k: int) -> Set<NodeId>
    decreases sizes(cs, k), 1nat,
{
    if k <= 0 || k > cs.len() {
        Set::empty()
    } else {
        proof {
            assert(sizes(cs, k) == sizes(cs, k - 1) + size(cs[k - 1]));
        }
        tree_ids_all(cs, k - 1).union(tree_ids(cs[k - 1]))
    }
}

/// Every node of the tree records its own DOM node, and no DOM node is
/// recorded twice.
pub open spec fn placed(v: VNode) -> bool
    decreases size(v), 0nat,
{
    match v {
        VNode::Element(el) => {
            proof {
                assert(sizes(el.children@, el.children@.len() as int) < size(v));
            }
            &&& el.dom_ref is Some
            &&& !tree_ids_all(el.children@, el.children@.len() as int).contains(el.dom_ref->0)
            &&& placed_all(el.children@, el.children@.len() as int)
        },
        VNode::Text(_, d) => d is Some,
        VNode::Dynamic(_, d) => d is Some,
        VNode::Empty => true,
        _ => false,
    }
}

/// The first `k` trees are placed, and no two share a DOM node.
pub open spec fn placed_all(cs: Seq<VNode>, k: int) -> bool
    decreases sizes(cs, k), 1nat,
{
    if k <= 0 || k > cs.len() {
        true
    } else {
        proof {
            assert(sizes(cs, k) == sizes(cs, k - 1) + size(cs[k - 1]));
        }
        placed_all(cs, k - 1) && placed(cs[k - 1]) && tree_ids_all(cs, k - 1).disjoint(tree_ids(cs[k - 1]))
    }
}

/// The child list that the tree gives the DOM node `q`, when `q` is one of
/// its elements: the DOM nodes of that element's children, in order.
pub open spec fn kids(v: VNode, q: NodeId) -> Option<Seq<NodeId>>
    decreases size(v), 0nat,
{
    match v {
        VNode::Element(el) => {
            proof {
                assert(sizes(el.children@, el.children@.len() as int) < size(v));
            }
            if el.dom_ref == Some(q) {
                Some(dom_nodes_all(el.children@, el.children@.len() as int))
            } else {
                kids_all(el.children@, el.children@.len() as int, q)
            }
        },
        VNode::Fragment(cs) => {
            proof {
                assert(sizes(cs@, cs@.len() as int) < size(v));
            }
            kids_all(cs@, cs@.len() as int, q)
        },
        _ => None,
    }
}

/// The child list that the first `k` trees give `q`, if one of them has it
/// as an element.
pub open spec fn kids_all(cs: Seq<VNode>, k: int, q: NodeId) -> Option<Seq<NodeId>>
    decreases sizes(cs, k), 1nat,
{
    if k <= 0 || k > cs.len() {
        None
    } else {
        proof {
            assert(sizes(cs, k) == sizes(cs, k - 1) + size(cs[k - 1]));
        }
        if kids(cs[k - 1], q) is Some {
            kids(cs[k - 1], q)
        } else {
            kids_all(cs, k - 1, q)
        }
    }
}

/// The DOM nodes a tree places in its parent are among its nodes.
proof fn lemma_dom_nodes_in_tree(cs: Seq<VNode>, k: int)
    requires
        0 <= k <= cs.len(),
        plain_all(cs, k),
    ensures
        forall|j: int|
            0 <= j < dom_nodes_all(cs, k).len() ==> tree_ids_all(cs, k).contains(#[trigger] dom_nodes_all(cs, k)[j]),
    decreases k,
{
    if k > 0 {
        lemma_dom_nodes_in_tree(cs, k - 1);
        assert(sizes(cs, k) == sizes(cs, k - 1) + size(cs[k - 1]));
        let a = dom_nodes_all(cs, k - 1);
        let b = dom_nodes(cs[k - 1]);
        assert(dom_nodes_all(cs, k) == a + b);
        assert forall|j: int| 0 <= j < (a + b).len() implies tree_ids_all(cs, k).contains(#[trigger] (a + b)[j]) by {
            if j < a.len() {
                assert((a + b)[j] == a[j]);
            } else {
                assert((a + b)[j] == b[j - a.len()]);
                assert(plain(cs[k - 1]));
                assert(tree_ids(cs[k - 1]).contains(b[j - a.len()])) by {
                    match cs[k - 1] {
                        VNode::Element(el) => {
                            assert(b == seq![el.dom_ref->0]);
                        },
                        VNode::Text(_, d) => {
                            assert(b == seq![d->0]);
                        },
                        _ => {},
                    }
                }
            }
        }
    }
}

/// An element's child list holds nodes of the tree, and the element is one.
proof fn lemma_kids_in_tree(v: VNode, q: NodeId)
    requires
        plain(v),
    ensures
        kids(v, q) matches Some(ks) ==> tree_ids(v).contains(q) && forall|j: int|
            0 <= j < ks.len() ==> tree_ids(v).contains(#[trigger] ks[j]),
    decreases size(v), 0nat,
{
    if let VNode::Element(el) = v {
        let n = el.children@.len() as int;
        assert(sizes(el.children@, n) < size(v));
        lemma_kids_all_in_tree(el.children@, n, q);
        if el.dom_ref == Some(q) {
            lemma_dom_nodes_in_tree(el.children@, n);
        }
    }
}

proof fn lemma_kids_all_in_tree(cs: Seq<VNode>, k: int, q: NodeId)
    requires
        0 <= k <= cs.len(),
        plain_all(cs, k),
    ensures
        kids_all(cs, k, q) matches Some(ks) ==> tree_ids_all(cs, k).contains(q) && forall|j: int|
            0 <= j < ks.len() ==> tree_ids_all(cs, k).contains(#[trigger] ks[j]),
        kids_all(cs, k, q) is None ==> forall|i: int| 0 <= i < k ==> kids(#[trigger] cs[i], q) is None,
    decreases sizes(cs, k), 1nat,
{
    if k > 0 {
        assert(sizes(cs, k) == sizes(cs, k - 1) + size(cs[k - 1]));
        lemma_kids_all_in_tree(cs, k - 1, q);
        lemma_kids_in_tree(cs[k - 1], q);
    }
}

/// A mounted tree is placed, its nodes fresh: from `next` on, within the
/// identifiers mounting consumed.
proof fn lemma_mounted_ids(v: VNode, out: VNode, svg: bool, next: u64)
    requires
        mounted(v, out, svg, next),
        plain(v),
        next + mount_ids(v) <= u64::MAX,
    ensures
        plain(out),
        placed(out),
        forall|x: NodeId| #[trigger] tree_ids(out).contains(x) ==> next <= x < next + mount_ids(v),
        dom_nodes(out) == if v is Empty {
            Seq::<NodeId>::empty()
        } else {
            seq![next]
        },
        !(v is Empty) ==> spec_dom_node(out) == Some(next) && mount_ids(v) >= 1,
        (out is Empty) == (v is Empty),
        spec_key(out) == spec_key(v),
    decreases size(v), 0nat,
{
    match v {
        VNode::Element(el) => {
            let n = el.children@.len() as int;
            assert(sizes(el.children@, n) < size(v));
            let ns = is_svg_tag(el.tag@) || svg;
            let first = advance(next, 1 + el.events@.len());
            lemma_advance_exact(next, 1 + el.events@.len());
            let o = out->Element_0;
            lemma_mounted_all_ids(el.children@, o.children@, n, ns, first);
            lemma_key_uniform_same(el.children@, o.children@);
            assert(tree_ids(out) == set![next].union(tree_ids_all(o.children@, n)));
        },
        VNode::Text(_, _) => {},
        _ => {},
    }
}

proof fn lemma_mounted_all_ids(cs: Seq<VNode>, outs: Seq<VNode>, k: int, svg: bool, next: u64)
    requires
        mounted_all(cs, outs, k, svg, next),
        0 <= k <= cs.len(),
        k <= outs.len(),
        plain_all(cs, k),
        next + ids_before(cs, k) <= u64::MAX,
    ensures
        plain_all(outs, k),
        placed_all(outs, k),
        forall|x: NodeId| #[trigger] tree_ids_all(outs, k).contains(x) ==> next <= x < next + ids_before(cs, k),
        forall|i: int| 0 <= i < k ==> #[trigger] spec_key(outs[i]) == spec_key(cs[i]),
        forall|i: int| 0 <= i < k ==> (#[trigger] outs[i] is Empty) == (cs[i] is Empty),
    decreases sizes(cs, k), 1nat,
{
    if k > 0 {
        assert(sizes(cs, k) == sizes(cs, k - 1) + size(cs[k - 1]));
        lemma_mounted_all_ids(cs, outs, k - 1, svg, next);
        let start = advance(next, ids_before(cs, k - 1));
        lemma_advance_exact(next, ids_before(cs, k - 1));
        lemma_mounted_ids(cs[k - 1], outs[k - 1], svg, start);
        assert(sizes(outs, k) == sizes(outs, k - 1) + size(outs[k - 1]));
        assert(tree_ids_all(outs, k - 1).disjoint(tree_ids(outs[k - 1]))) by {
            assert forall|x: NodeId| #[trigger] tree_ids_all(outs, k - 1).contains(x) implies !tree_ids(outs[k - 1]).contains(x) by {}
        }
    }
}

/// Mounting gives every new element its children: applied to the empty
/// child list of a new element `q`, the operations that mount `v` into
/// `q0` leave the list the mounted tree gives `q`.
proof fn lemma_mount_kids(
    v: VNode,
    out: VNode,
    q0: NodeId,
    anchor: Option<NodeId>,
    svg: bool,
    next: u64,
    q: NodeId,
)
    requires
        mounted(v, out, svg, next),
        plain(v),
        next + mount_ids(v) <= u64::MAX,
        q0 < next,
    ensures
        kids(out, q) matches Some(ks) ==> apply_ops(q, Seq::empty(), mount_spec(v, q0, anchor, svg, next).0) == ks,
    decreases size(v), 0nat,
{
    if let VNode::Element(el) = v {
        let n = el.children@.len() as int;
        assert(sizes(el.children@, n) < size(v));
        let ns = is_svg_tag(el.tag@) || svg;
        let first = advance(next, 1 + el.events@.len());
        lemma_advance_exact(next, 1 + el.events@.len());
        let o = out->Element_0;
        let hi = next + mount_ids(v);
        lemma_mounted_ids(v, out, svg, next);
        lemma_mounted_all_ids(el.children@, o.children@, n, ns, first);
        lemma_kids_in_tree(out, q);
        if let Some(ks) = kids(out, q) {
            let e = Seq::<NodeId>::empty();
            let c0 = seq![DomOp::CreateElement { node: next, tag: el.tag, svg: ns }];
            assert(ops_within(c0, q0, 0, 0)) by {
                assert(op_within(c0[0], q0, 0, 0));
            }
            let a = set_all_attrs_ops(el.attrs@, next, el.attrs@.len() as int);
            lemma_attrs_within(el.attrs@, next, el.attrs@.len() as int, q0, 0, 0);
            let l = add_listeners_ops(el.events@, next, succ(next), el.events@.len() as int);
            lemma_listeners_within(el.events@, next, succ(next), el.events@.len() as int, q0, 0, 0);
            lemma_within_concat(c0, a, q0, 0, 0);
            lemma_within_concat(c0 + a, l, q0, 0, 0);
            let pre = c0 + a + l;
            let c = mount_children_ops(el.children@, n, next, ns, first);
            let ins = insert_op(q0, next, anchor);
            assert(mount_spec(v, q0, anchor, svg, next).0 == pre + c + seq![ins]);
            lemma_apply_within(q, e, pre, q0, 0, 0);
            lemma_apply_ops_concat(q, e, pre, c);
            lemma_apply_ops_concat(q, e, pre + c, seq![ins]);
            lemma_mount_children_kids(el.children@, o.children@, n, next, ns, first, q);
            let lc = apply_ops(q, e, c);
            lemma_apply_one(q, lc, ins);
            assert(lc == ks);
            assert(!ks.contains(next)) by {
                if ks.contains(next) {
                    let w = choose|w: int| 0 <= w < ks.len() && ks[w] == next;
                    if q == next {
                        assert(tree_ids_all(o.children@, n).contains(ks[w])) by {
                            lemma_dom_nodes_in_tree(o.children@, n);
                        }
                    } else {
                        lemma_kids_all_in_tree(o.children@, n, q);
                        assert(tree_ids_all(o.children@, n).contains(ks[w]));
                    }
                }
            }
            lemma_without_absent(ks, next);
        }
    }
}

proof fn lemma_mount_children_kids(
    cs: Seq<VNode>,
    outs: Seq<VNode>,
    k: int,
    parent: NodeId,
    svg: bool,
    next: u64,
    q: NodeId,
)
    requires
        mounted_all(cs, outs, k, svg, next),
        0 <= k <= cs.len(),
        k <= outs.len(),
        plain_all(cs, k),
        next + ids_before(cs, k) <= u64::MAX,
        parent < next,
    ensures
        apply_ops(parent, Seq::empty(), mount_children_ops(cs, k, parent, svg, next)) == dom_nodes_all(outs, k),
        kids_all(outs, k, q) matches Some(ks) ==> apply_ops(q, Seq::empty(), mount_children_ops(cs, k, parent, svg, next))
            == ks,
    decreases sizes(cs, k), 1nat,
{
    let e = Seq::<NodeId>::empty();
    if k == 0 {
        lemma_place_nothing(e, None);
    } else {
        assert(sizes(cs, k) == sizes(cs, k - 1) + size(cs[k - 1]));
        lemma_mount_children_kids(cs, outs, k - 1, parent, svg, next, q);
        lemma_mounted_all_ids(cs, outs, k - 1, svg, next);
        let start = advance(next, ids_before(cs, k - 1));
        lemma_advance_exact(next, ids_before(cs, k - 1));
        let hi = start + mount_ids(cs[k - 1]);
        lemma_mounted_ids(cs[k - 1], outs[k - 1], svg, start);
        let a = mount_children_ops(cs, k - 1, parent, svg, next);
        let b = mount_spec(cs[k - 1], parent, None, svg, start).0;
        assert(mount_children_ops(cs, k, parent, svg, next) == a + b);
        // the parent's list
        let d0 = apply_ops(parent, e, a);
        lemma_dom_nodes_in_tree(outs, k - 1);
        assert forall|j: int| 0 <= j < d0.len() implies d0[j] < start by {
            assert(tree_ids_all(outs, k - 1).contains(dom_nodes_all(outs, k - 1)[j]));
        }
        lemma_mount_places_nodes(cs[k - 1], outs[k - 1], parent, None, svg, start, d0);
        lemma_apply_ops_concat(parent, e, a, b);
        assert(dom_nodes_all(outs, k) == dom_nodes_all(outs, k - 1) + dom_nodes(outs[k - 1]));
        // the list of an element inside
        lemma_apply_ops_concat(q, e, a, b);
        lemma_kids_in_tree(outs[k - 1], q);
        lemma_kids_all_in_tree(outs, k - 1, q);
        if kids(outs[k - 1], q) is Some {
            lemma_children_within(cs, k - 1, parent, svg, next);
            lemma_apply_within(q, e, a, parent, next as int, start as int);
            lemma_mount_kids(cs[k - 1], outs[k - 1], parent, None, svg, start, q);
        } else if let Some(ks) = kids_all(outs, k - 1, q) {
            lemma_mount_within(cs[k - 1], parent, None, svg, start);
            assert forall|j: int| 0 <= j < ks.len() implies !(start <= #[trigger] ks[j] < hi) by {
                assert(tree_ids_all(outs, k - 1).contains(ks[j]));
            }
            lemma_apply_within(q, ks, b, parent, start as int, hi);
        }
    }
}

/// Facts about the `i`-th of the first `k` trees.
proof fn lemma_tree_at(cs: Seq<VNode>, k: int, i: int)
    requires
        0 <= i < k <= cs.len(),
    ensures
        plain_all(cs, k) ==> plain(cs[i]),
        placed_all(cs, k) ==> placed(cs[i]),
        forall|x: NodeId| #[trigger] tree_ids(cs[i]).contains(x) ==> tree_ids_all(cs, k).contains(x),
        placed_all(cs, k) ==> forall|j: int, x: NodeId|
            0 <= j < k && j != i && #[trigger] tree_ids(cs[j]).contains(x) ==> !tree_ids(cs[i]).contains(x),
    decreases k,
{
    assert(sizes(cs, k) == sizes(cs, k - 1) + size(cs[k - 1]));
    if i < k - 1 {
        lemma_tree_at(cs, k - 1, i);
    }
    if placed_all(cs, k) {
        assert forall|j: int, x: NodeId|
            0 <= j < k && j != i && #[trigger] tree_ids(cs[j]).contains(x) implies !tree_ids(cs[i]).contains(x) by {
            if i == k - 1 {
                lemma_tree_at(cs, k - 1, j);
            } else if j == k - 1 {
                lemma_tree_at(cs, k - 1, i);
            } else {
                lemma_tree_at(cs, k - 1, i);
            }
        }
    }
}

/// A node of the first `k` trees lies in one of them.
proof fn lemma_tree_ids_all_has(cs: Seq<VNode>, k: int, x: NodeId) -> (i: int)
    requires
        0 <= k <= cs.len(),
        tree_ids_all(cs, k).contains(x),
    ensures
        0 <= i < k,
        tree_ids(cs[i]).contains(x),
    decreases k,
{
    assert(sizes(cs, k) == sizes(cs, k - 1) + size(cs[k - 1]));
    if tree_ids(cs[k - 1]).contains(x) {
        k - 1
    } else {
        lemma_tree_ids_all_has(cs, k - 1, x)
    }
}

/// The child list of a node of the `i`-th tree is the one that tree gives it.
proof fn lemma_kids_all_at(cs: Seq<VNode>, k: int, i: int, q: NodeId)
    requires
        0 <= i < k <= cs.len(),
        plain_all(cs, k),
        placed_all(cs, k),
        tree_ids(cs[i]).contains(q),
    ensures
        kids_all(cs, k, q) == kids(cs[i], q),
    decreases k,
{
    assert(sizes(cs, k) == sizes(cs, k - 1) + size(cs[k - 1]));
    lemma_tree_at(cs, k, i);
    if i < k - 1 {
        lemma_tree_at(cs, k, k - 1);
        lemma_kids_in_tree(cs[k - 1], q);
        assert(!tree_ids(cs[k - 1]).contains(q));
        lemma_kids_all_at(cs, k - 1, i, q);
    } else {
        lemma_kids_all_in_tree(cs, k - 1, q);
        assert(!tree_ids_all(cs, k - 1).contains(q));
    }
}

/// Mounting consumes no more identifiers than the tree's size.
proof fn lemma_mount_ids_le_size(v: VNode)
    ensures
        mount_ids(v) <= size(v),
    decreases size(v), 0nat,
{
    match v {
        VNode::Element(el) => {
            let n = el.children@.len() as int;
            assert(sizes(el.children@, n) < size(v));
            lemma_ids_before_le_sizes(el.children@, n);
        },
        VNode::Fragment(cs) => {
            let n = cs@.len() as int;
            assert(sizes(cs@, n) < size(v));
            lemma_ids_before_le_sizes(cs@, n);
        },
        _ => {},
    }
}

proof fn lemma_ids_before_le_sizes(cs: Seq<VNode>, k: int)
    ensures
        ids_before(cs, k) <= sizes(cs, k),
    decreases sizes(cs, k), 1nat,
{
    if 0 < k <= cs.len() {
        assert(sizes(cs, k) == sizes(cs, k - 1) + size(cs[k - 1]));
        lemma_ids_before_le_sizes(cs, k - 1);
        lemma_mount_ids_le_size(cs[k - 1]);
    }
}

/// Listener patching over the first `k` old events allocates at most one
/// identifier per event and plans only listener changes.
proof fn lemma_old_events_phase(
    old_events: Seq<(String, EventHandler)>,
    new_events: Seq<(String, EventHandler)>,
    closures: Seq<(String, NodeId)>,
    node: NodeId,
    next: u64,
    k: int,
    q: NodeId,
    lo: int,
    hi: int,
)
    requires
        0 <= k,
        next + k <= u64::MAX,
    ensures
        next <= old_events_phase(old_events, new_events, closures, node, next, k).3 <= next + k,
        ops_within(old_events_phase(old_events, new_events, closures, node, next, k).2, q, lo, hi),
    decreases k,
{
    if k > 0 {
        lemma_old_events_phase(old_events, new_events, closures, node, next, k - 1, q, lo, hi);
        let st = old_events_phase(old_events, new_events, closures, node, next, k - 1);
        let r = old_events_phase(old_events, new_events, closures, node, next, k);
        lemma_advance_exact(st.3, 1);
        assert forall|i: int| 0 <= i < r.2.len() implies op_within(#[trigger] r.2[i], q, lo, hi) by {
            if i < st.2.len() {
                assert(op_within(st.2[i], q, lo, hi));
            } else if i == st.2.len() + 1 {
            }
            if i < st.2.len() + 1 && r.2.len() == st.2.len() + 2 && i == st.2.len() {
            }
        }
    }
}

proof fn lemma_new_events_phase(
    old_events: Seq<(String, EventHandler)>,
    new_events: Seq<(String, EventHandler)>,
    node: NodeId,
    start: (Seq<(String, NodeId)>, Seq<DomOp>, u64),
    k: int,
    q: NodeId,
    lo: int,
    hi: int,
)
    requires
        0 <= k,
        start.2 + k <= u64::MAX,
        ops_within(start.1, q, lo, hi),
    ensures
        start.2 <= new_events_phase(old_events, new_events, node, start, k).2 <= start.2 + k,
        ops_within(new_events_phase(old_events, new_events, node, start, k).1, q, lo, hi),
    decreases k,
{
    if k > 0 {
        lemma_new_events_phase(old_events, new_events, node, start, k - 1, q, lo, hi);
        let st = new_events_phase(old_events, new_events, node, start, k - 1);
        let r = new_events_phase(old_events, new_events, node, start, k);
        lemma_advance_exact(st.2, 1);
        assert forall|i: int| 0 <= i < r.1.len() implies op_within(#[trigger] r.1[i], q, lo, hi) by {
            if i < st.1.len() {
                assert(op_within(st.1[i], q, lo, hi));
            }
        }
    }
}

/// Removals from `p` leave every other parent's list alone.
proof fn lemma_removals_other(p: NodeId, ds: Seq<NodeId>, q: NodeId, l: Seq<NodeId>)
    requires
        q != p,
    ensures
        apply_ops(q, l, removals(p, ds)) == l,
    decreases ds.len(),
{
    if ds.len() > 0 {
        lemma_removals_other(p, ds.drop_last(), q, l);
        assert(removals(p, ds).drop_last() =~= removals(p, ds.drop_last()));
    }
}

proof fn lemma_remove_range_other(oc: Seq<VNode>, n: int, k: int, p: NodeId, q: NodeId, l: Seq<NodeId>)
    requires
        q != p,
    ensures
        apply_ops(q, l, remove_range_ops(oc, n, k, p)) == l,
    decreases k - n,
{
    if k > n {
        lemma_remove_range_other(oc, n, k - 1, p, q, l);
        lemma_apply_ops_concat(q, l, remove_range_ops(oc, n, k - 1, p), remove_node_ops(p, oc[k - 1]));
        lemma_removals_other(p, dom_nodes(oc[k - 1]), q, l);
    }
}

/// Mounting the new trees in `from..k` at the end of `p`: their nodes are
/// appended to `p`, every new element gets its children, and nothing else
/// changes.
proof fn lemma_mount_range_tree(
    nc: Seq<VNode>,
    outs: Seq<VNode>,
    from: int,
    k: int,
    p: NodeId,
    next: u64,
    x: Seq<NodeId>,
    q: NodeId,
    l: Seq<NodeId>,
)
    requires
        0 <= from <= k <= nc.len(),
        k <= outs.len(),
        plain_all(nc, nc.len() as int),
        mounted_range(nc, outs, from, k, p, next),
        next + (sizes(nc, k) - sizes(nc, from)) <= u64::MAX,
        p < next,
        forall|j: int| 0 <= j < x.len() ==> x[j] < next,
        plain_all(outs, from),
        placed_all(outs, from),
        forall|y: NodeId| #[trigger] tree_ids_all(outs, from).contains(y) ==> y < next,
    ensures
        next <= mount_range_spec(nc, from, k, p, next).1 <= next + sizes(nc, k) - sizes(nc, from),
        plain_all(outs, k),
        placed_all(outs, k),
        forall|y: NodeId|
            #[trigger] tree_ids_all(outs, k).contains(y) ==> tree_ids_all(outs, from).contains(y) || next <= y
                < mount_range_spec(nc, from, k, p, next).1,
        forall|i: int| from <= i < k ==> #[trigger] spec_key(outs[i]) == spec_key(nc[i]),
        forall|i: int| from <= i < k ==> (#[trigger] outs[i] is Empty) == (nc[i] is Empty),
        apply_ops(p, x, mount_range_spec(nc, from, k, p, next).0) == x + doms_between(outs, from, k),
        kids_all(outs, k, q) matches Some(ks) ==> !tree_ids_all(outs, from).contains(q) ==> apply_ops(
            q,
            Seq::empty(),
            mount_range_spec(nc, from, k, p, next).0,
        ) == ks,
        q != p && !(next <= q < mount_range_spec(nc, from, k, p, next).1) && (forall|j: int|
            0 <= j < l.len() ==> !(next <= #[trigger] l[j] < mount_range_spec(nc, from, k, p, next).1)) ==> apply_ops(
            q,
            l,
            mount_range_spec(nc, from, k, p, next).0,
        ) == l,
    decreases k - from,
{
    let e = Seq::<NodeId>::empty();
    if k == from {
        assert(x + doms_between(outs, from, k) =~= x);
        lemma_kids_all_in_tree(outs, from, q);
    } else {
        lemma_sizes_mono_here(nc, k - 1, k);
        lemma_mount_range_tree(nc, outs, from, k - 1, p, next, x, q, l);
        let prev = mount_range_spec(nc, from, k - 1, p, next);
        let start = prev.1;
        let c = nc[k - 1];
        let o = outs[k - 1];
        lemma_tree_at(nc, nc.len() as int, k - 1);
        lemma_mount_ids_le_size(c);
        lemma_sizes_mono_here(nc, from, k - 1);
        assert(sizes(nc, k) == sizes(nc, k - 1) + size(c));
        let hi = start + mount_ids(c);
        assert(mounted(c, o, false, start));
        lemma_mounted_ids(c, o, false, start);
        lemma_advance_exact(start, mount_ids(c));
        let b = mount_spec(c, p, None, false, start).0;
        assert(mount_range_spec(nc, from, k, p, next).0 == prev.0 + b);
        lemma_mount_within(c, p, None, false, start);
        // p's list
        let x1 = apply_ops(p, x, prev.0);
        let t = doms_between(outs, from, k - 1);
        lemma_doms_between_in(outs, from, k - 1);
        assert forall|j: int| 0 <= j < x1.len() implies x1[j] < start by {
            if j >= x.len() {
                assert(x1[j] == t[j - x.len()]);
                assert(tree_ids_all(outs, k - 1).contains(t[j - x.len()]));
            }
        }
        lemma_mount_places_nodes(c, o, p, None, false, start, x1);
        lemma_apply_ops_concat(p, x, prev.0, b);
        assert(x1 + dom_nodes(o) =~= x + doms_between(outs, from, k));
        // placement
        assert(sizes(outs, k) == sizes(outs, k - 1) + size(o));
        assert(tree_ids_all(outs, k - 1).disjoint(tree_ids(o))) by {
            assert forall|y: NodeId| #[trigger] tree_ids_all(outs, k - 1).contains(y) implies !tree_ids(o).contains(y) by {}
        }
        // the lists of elements
        lemma_apply_ops_concat(q, e, prev.0, b);
        lemma_apply_ops_concat(q, l, prev.0, b);
        lemma_kids_in_tree(o, q);
        lemma_kids_all_in_tree(outs, k - 1, q);
        if kids(o, q) is Some {
            lemma_mount_range_tree(nc, outs, from, k - 1, p, next, x, q, e);
            lemma_mount_kids(c, o, p, None, false, start, q);
        } else if let Some(ks) = kids_all(outs, k - 1, q) {
            if !tree_ids_all(outs, from).contains(q) {
                assert forall|j: int| 0 <= j < ks.len() implies !(start <= #[trigger] ks[j] < hi) by {
                    assert(tree_ids_all(outs, k - 1).contains(ks[j]));
                }
                lemma_apply_within(q, ks, b, p, start as int, hi);
            }
        }
        if q != p && !(next <= q < hi) && (forall|j: int| 0 <= j < l.len() ==> !(next <= #[trigger] l[j] < hi)) {
            lemma_apply_within(q, l, b, p, start as int, hi);
        }
    }
}

/// The DOM nodes that the trees in `from..k` placed, in order.
pub open spec fn doms_between(cs: Seq<VNode>, from: int, k: int) -> Seq<NodeId>
    decreases k - from,
{
    if k <= from {
        Seq::empty()
    } else {
        doms_between(cs, from, k - 1) + dom_nodes(cs[k - 1])
    }
}

/// The DOM nodes a tree places are among its nodes, one at most.
proof fn lemma_dom_nodes_plain(v: VNode)
    requires
        plain(v),
        placed(v),
    ensures
        dom_nodes(v).len() <= 1,
        forall|j: int| 0 <= j < dom_nodes(v).len() ==> tree_ids(v).contains(#[trigger] dom_nodes(v)[j]),
        v is Empty ==> dom_nodes(v) == Seq::<NodeId>::empty(),
{
}

/// The nodes placed by the trees in `from..k` are nodes of the first `k` trees.
proof fn lemma_doms_between_in(cs: Seq<VNode>, from: int, k: int)
    requires
        0 <= from <= k <= cs.len(),
        plain_all(cs, k),
        placed_all(cs, k),
    ensures
        forall|j: int|
            0 <= j < doms_between(cs, from, k).len() ==> tree_ids_all(cs, k).contains(#[trigger] doms_between(cs, from, k)[j]),
    decreases k - from,
{
    if k > from {
        lemma_doms_between_in(cs, from, k - 1);
        lemma_tree_at(cs, k, k - 1);
        lemma_dom_nodes_plain(cs[k - 1]);
        let a = doms_between(cs, from, k - 1);
        let b = dom_nodes(cs[k - 1]);
        assert forall|y: NodeId| #[trigger] tree_ids_all(cs, k - 1).contains(y) implies tree_ids_all(cs, k).contains(y) by {
            let i = lemma_tree_ids_all_has(cs, k - 1, y);
            lemma_tree_at(cs, k, i);
        }
        assert forall|j: int| 0 <= j < (a + b).len() implies tree_ids_all(cs, k).contains(#[trigger] (a + b)[j]) by {
            if j < a.len() {
                assert((a + b)[j] == a[j]);
            } else {
                assert((a + b)[j] == b[j - a.len()]);
            }
        }
    }
}

/// The nodes placed by the first `k` trees are those of the first `from`,
/// then those of the trees in `from..k`.
proof fn lemma_doms_between_split(cs: Seq<VNode>, from: int, k: int)
    requires
        0 <= from <= k <= cs.len(),
    ensures
        dom_nodes_all(cs, k) == dom_nodes_all(cs, from) + doms_between(cs, from, k),
    decreases k - from,
{
    if k == from {
        assert(dom_nodes_all(cs, k) + Seq::<NodeId>::empty() =~= dom_nodes_all(cs, k));
    } else {
        lemma_doms_between_split(cs, from, k - 1);
        assert(sizes(cs, k) == sizes(cs, k - 1) + size(cs[k - 1]));
        assert(dom_nodes_all(cs, k) == dom_nodes_all(cs, k - 1) + dom_nodes(cs[k - 1]));
        assert(dom_nodes_all(cs, from) + doms_between(cs, from, k) =~= dom_nodes_all(cs, from) + doms_between(
            cs,
            from,
            k - 1,
        ) + dom_nodes(cs[k - 1]));
    }
}

/// The DOM nodes that the trees from position `k` on placed, in order.
pub open spec fn doms_from(cs: Seq<VNode>, k: int) -> Seq<NodeId>
    decreases cs.len() - k,
{
    if k < 0 || k >= cs.len() {
        Seq::empty()
    } else {
        dom_nodes(cs[k]) + doms_from(cs, k + 1)
    }
}

/// The nodes placed by all trees are those of the first `k`, then the rest.
proof fn lemma_doms_from_split(cs: Seq<VNode>, k: int)
    requires
        0 <= k <= cs.len(),
    ensures
        dom_nodes_all(cs, cs.len() as int) == dom_nodes_all(cs, k) + doms_from(cs, k),
    decreases cs.len() - k,
{
    if k == cs.len() {
        assert(dom_nodes_all(cs, k) + Seq::<NodeId>::empty() =~= dom_nodes_all(cs, k));
    } else {
        lemma_doms_from_split(cs, k + 1);
        assert(sizes(cs, k + 1) == sizes(cs, k) + size(cs[k]));
        assert(dom_nodes_all(cs, k + 1) == dom_nodes_all(cs, k) + dom_nodes(cs[k]));
        assert(dom_nodes_all(cs, k) + doms_from(cs, k) =~= dom_nodes_all(cs, k + 1) + doms_from(cs, k + 1));
    }
}

/// The first DOM node from position `k` on is the first of those nodes.
proof fn lemma_first_dom_from_doms(cs: Seq<VNode>, k: int)
    requires
        0 <= k,
    ensures
        first_dom_from(cs, k) == (if doms_from(cs, k).len() > 0 {
            Some(doms_from(cs, k)[0])
        } else {
            None::<NodeId>
        }),
    decreases cs.len() - k,
{
    if k < cs.len() {
        lemma_first_dom_from_doms(cs, k + 1);
        let d = dom_nodes(cs[k]);
        if d.len() > 0 {
            assert((d + doms_from(cs, k + 1))[0] == d[0]);
        } else {
            assert(d + doms_from(cs, k + 1) =~= doms_from(cs, k + 1));
        }
    }
}

/// A node placed from position `k` on belongs to one of those trees.
proof fn lemma_doms_from_has(cs: Seq<VNode>, k: int, t: int) -> (j: int)
    requires
        0 <= k,
        0 <= t < doms_from(cs, k).len(),
        plain_all(cs, cs.len() as int),
        placed_all(cs, cs.len() as int),
    ensures
        k <= j < cs.len(),
        tree_ids(cs[j]).contains(doms_from(cs, k)[t]),
    decreases cs.len() - k,
{
    let d = dom_nodes(cs[k]);
    lemma_tree_at(cs, cs.len() as int, k);
    lemma_dom_nodes_plain(cs[k]);
    if t < d.len() {
        assert(doms_from(cs, k)[t] == d[t]);
        k
    } else {
        assert(doms_from(cs, k)[t] == doms_from(cs, k + 1)[t - d.len()]);
        lemma_doms_from_has(cs, k + 1, t - d.len())
    }
}

/// The DOM nodes placed by trees apart from each other are distinct.
proof fn lemma_dom_nodes_all_distinct(cs: Seq<VNode>, k: int)
    requires
        0 <= k <= cs.len(),
        plain_all(cs, k),
        placed_all(cs, k),
    ensures
        distinct_nodes(dom_nodes_all(cs, k)),
    decreases k,
{
    if k > 0 {
        lemma_dom_nodes_all_distinct(cs, k - 1);
        assert(sizes(cs, k) == sizes(cs, k - 1) + size(cs[k - 1]));
        let a = dom_nodes_all(cs, k - 1);
        let b = dom_nodes(cs[k - 1]);
        lemma_dom_nodes_plain(cs[k - 1]);
        lemma_dom_nodes_in_tree(cs, k - 1);
        assert(dom_nodes_all(cs, k) == a + b);
        assert forall|x: int, y: int| 0 <= x < y < (a + b).len() implies (a + b)[x] != (a + b)[y] by {
            if y >= a.len() && x < a.len() {
                assert(tree_ids_all(cs, k - 1).contains(a[x]));
                assert(tree_ids(cs[k - 1]).contains(b[y - a.len()]));
            }
        }
    }
}

/// Removing the old trees in `n..k` takes their nodes out of the parent,
/// which holds `x` and then the nodes of the old trees from `n` on.
proof fn lemma_remove_range_tree(oc: Seq<VNode>, n: int, k: int, p: NodeId, x: Seq<NodeId>)
    requires
        0 <= n <= k <= oc.len(),
        plain_all(oc, oc.len() as int),
        placed_all(oc, oc.len() as int),
        distinct_nodes(x + doms_from(oc, n)),
    ensures
        apply_ops(p, x + doms_from(oc, n), remove_range_ops(oc, n, k, p)) == x + doms_from(oc, k),
    decreases k - n,
{
    if k == n {
        assert(remove_range_ops(oc, n, k, p) =~= Seq::<DomOp>::empty());
    } else {
        lemma_remove_range_tree(oc, n, k - 1, p, x);
        let t = x + doms_from(oc, k - 1);
        lemma_tree_at(oc, oc.len() as int, k - 1);
        lemma_dom_nodes_plain(oc[k - 1]);
        let d = dom_nodes(oc[k - 1]);
        let rm = remove_node_ops(p, oc[k - 1]);
        lemma_apply_ops_concat(p, x + doms_from(oc, n), remove_range_ops(oc, n, k - 1, p), rm);
        assert(doms_from(oc, k - 1) == d + doms_from(oc, k));
        // t has no repeats: it is x followed by a tail of x + doms_from(oc, n)
        assert(distinct_nodes(t)) by {
            lemma_doms_from_suffix(oc, n, k - 1);
            let u = x + doms_from(oc, n);
            let sh = doms_from(oc, n).len() - doms_from(oc, k - 1).len();
            assert forall|a: int, b: int| 0 <= a < b < t.len() implies t[a] != t[b] by {
                let ua = if a < x.len() { a } else { a + sh };
                let ub = if b < x.len() { b } else { b + sh };
                assert(t[a] == u[ua]);
                assert(t[b] == u[ub]);
            }
        }
        if d.len() == 0 {
            assert(rm =~= Seq::<DomOp>::empty());
            assert(d + doms_from(oc, k) =~= doms_from(oc, k));
        } else {
            assert(rm =~= seq![DomOp::RemoveChild { parent: p, child: d[0] }]);
            lemma_apply_one(p, t, rm[0]);
            assert(t =~= x + seq![d[0]] + doms_from(oc, k));
            lemma_segment_without(x, d[0], doms_from(oc, k));
        }
    }
}

/// The nodes from a later position are the tail of those from an earlier one.
proof fn lemma_doms_from_suffix(cs: Seq<VNode>, a: int, b: int)
    requires
        0 <= a <= b,
    ensures
        doms_from(cs, a).len() >= doms_from(cs, b).len(),
        forall|t: int|
            0 <= t < doms_from(cs, b).len() ==> #[trigger] doms_from(cs, b)[t] == doms_from(cs, a)[t + doms_from(cs, a).len()
                - doms_from(cs, b).len()],
    decreases b - a,
{
    if a < b {
        lemma_doms_from_suffix(cs, a + 1, b);
        if a < cs.len() {
            let d = dom_nodes(cs[a]);
            assert(doms_from(cs, a) == d + doms_from(cs, a + 1));
        }
    }
}

/// Placing `e` before the first node of `rr` in `x + rr` (at the end when
/// `rr` is empty) gives `x + e + rr`.
proof fn lemma_segment_place(x: Seq<NodeId>, e: Seq<NodeId>, rr: Seq<NodeId>, anchor: Option<NodeId>)
    requires
        distinct_nodes(x + rr),
        anchor == (if rr.len() > 0 {
            Some(rr[0])
        } else {
            None::<NodeId>
        }),
    ensures
        place(x + rr, e, anchor) == x + e + rr,
{
    let s = x + rr;
    if rr.len() > 0 {
        let a = rr[0];
        assert(s[x.len() as int] == a);
        assert forall|j: int| 0 <= j < x.len() implies s[j] != a by {
            assert(s[j] != s[x.len() as int]);
        }
        lemma_first_index_is(s, a, x.len() as int);
        assert(s.take(x.len() as int) =~= x);
        assert(s.skip(x.len() as int) =~= rr);
    } else {
        assert(s =~= x);
    }
    assert(place(x + rr, e, anchor) =~= x + e + rr);
}

/// Taking out `y`, which stands once between `x` and `rr`, gives `x + rr`.
proof fn lemma_segment_without(x: Seq<NodeId>, y: NodeId, rr: Seq<NodeId>)
    requires
        distinct_nodes(x + seq![y] + rr),
    ensures
        without(x + seq![y] + rr, y) == x + rr,
{
    let s = x + seq![y] + rr;
    assert(s[x.len() as int] == y);
    lemma_without_at(s, x.len() as int);
    assert(s.remove(x.len() as int) =~= x + rr);
}

proof fn lemma_sizes_mono_here(s: Seq<VNode>, a: int, b: int)
    requires
        0 <= a <= b <= s.len(),
    ensures
        sizes(s, a) <= sizes(s, b),
    decreases b - a,
{
    if a < b {
        lemma_sizes_mono_here(s, a, b - 1);
    }
}

/// A placed tree's own DOM node is one of its nodes.
proof fn lemma_dom_in_tree(v: VNode)
    requires
        plain(v),
        placed(v),
        !(v is Empty),
    ensures
        dom_nodes(v) == seq![spec_dom_node(v)->0],
        tree_ids(v).contains(spec_dom_node(v)->0),
{
}

/// The child list an old tree gives `q` (none when it is not one of its elements).
pub open spec fn before_of(b: Option<Seq<NodeId>>) -> Seq<NodeId> {
    match b {
        Some(x) => x,
        None => Seq::empty(),
    }
}

/// The DOM nodes of placed trees are distinct.
proof fn lemma_own_doms_distinct(cs: Seq<VNode>, m: int)
    requires
        0 <= m <= cs.len(),
        plain_all(cs, m),
        placed_all(cs, m),
        forall|i: int| 0 <= i < m ==> !(#[trigger] cs[i] is Empty),
    ensures
        distinct_nodes(own_doms(cs, m)),
        forall|i: int| 0 <= i < m ==> tree_ids(cs[i]).contains(#[trigger] own_doms(cs, m)[i]),
        forall|i: int| 0 <= i < m ==> dom_nodes(#[trigger] cs[i]) == seq![spec_dom_node(cs[i])->0],
{
    let d = own_doms(cs, m);
    assert forall|i: int| 0 <= i < m implies dom_nodes(#[trigger] cs[i]) == seq![spec_dom_node(cs[i])->0] by {
        lemma_tree_at(cs, m, i);
        lemma_dom_in_tree(cs[i]);
    }
    assert forall|i: int| 0 <= i < m implies tree_ids(cs[i]).contains(#[trigger] d[i]) && dom_nodes(cs[i]) == seq![
        spec_dom_node(cs[i])->0,
    ] by {
        lemma_tree_at(cs, m, i);
        lemma_dom_in_tree(cs[i]);
    }
    assert forall|a: int, b: int| 0 <= a < b < d.len() implies d[a] != d[b] by {
        lemma_tree_at(cs, m, a);
        assert(tree_ids(cs[a]).contains(d[a]));
        assert(tree_ids(cs[b]).contains(d[b]));
    }
}

/// Patching one tree within `p`: what it does to `p`'s child list, to the
/// child lists of the elements of the patched tree, and (nothing) to any
/// other list.
#[verifier::spinoff_prover]
#[verifier::rlimit(80)]
proof fn lemma_patch_tree(
    old: VNode,
    new: VNode,
    out: VNode,
    p: NodeId,
    anchor: Option<NodeId>,
    next: u64,
    s: Seq<NodeId>,
    q: NodeId,
)
    requires
        plain(old),
        plain(new),
        placed(old),
        !(old is Empty),
        !(new is Empty),
        !(old is Dynamic && new is Dynamic),
        patched(old, new, out, p, anchor, next),
        next + size(old) + size(new) <= u64::MAX,
        forall|y: NodeId| #[trigger] tree_ids(old).contains(y) ==> y < next,
        p < next,
        !tree_ids(old).contains(p),
        anchor matches Some(a) ==> a < next,
    ensures
        ({
            let r = patch_spec(old, new, p, anchor, next);
            let d = spec_dom_node(old)->0;
            &&& next <= r.1 <= next + size(old) + size(new)
            &&& plain(out)
            &&& placed(out)
            &&& !(out is Empty)
            &&& forall|y: NodeId| #[trigger] tree_ids(out).contains(y) ==> tree_ids(old).contains(y) || next <= y < r.1
            &&& spec_key(out) == spec_key(new)
            &&& spec_same_type(old, new) ==> spec_dom_node(out) == spec_dom_node(old)
            &&& !spec_same_type(old, new) ==> spec_dom_node(out) == Some(next) && next < r.1
            &&& (forall|j: int| 0 <= j < s.len() ==> #[trigger] s[j] == d || (!tree_ids(old).contains(s[j]) && s[j] < next))
                ==> apply_ops(p, s, r.0) == if spec_same_type(old, new) {
                s
            } else {
                place(without(s, d), seq![spec_dom_node(out)->0], anchor)
            }
            &&& kids(out, q) matches Some(ks) ==> apply_ops(q, before_of(kids(old, q)), r.0) == ks
            &&& (q != p && !tree_ids(old).contains(q) && !(next <= q < r.1)) ==> forall|l: Seq<NodeId>|
                (forall|j: int| 0 <= j < l.len() ==> !tree_ids(old).contains(#[trigger] l[j]) && !(next <= l[j] < r.1))
                    ==> #[trigger] apply_ops(q, l, r.0) == l
        }),
    decreases size(old) + size(new), 5int, 0int, 0int,
{
    let r = patch_spec(old, new, p, anchor, next);
    let d = spec_dom_node(old)->0;
    let other: NodeId = if p == 0 { 1 } else { 0 };
    lemma_dom_in_tree(old);
    if !spec_same_type(old, new) {
        assert(!(old is Empty) && !(new is Empty));
        assert(mounted(new, out, false, next));
        lemma_mount_ids_le_size(new);
        lemma_advance_exact(next, mount_ids(new));
        lemma_mounted_ids(new, out, false, next);
        let rm = remove_node_ops(p, old);
        assert(rm =~= seq![DomOp::RemoveChild { parent: p, child: d }]);
        let mo = mount_spec(new, p, anchor, false, next).0;
        assert(r.0 == rm + mo);
        let hi = next + mount_ids(new);
        lemma_mount_within(new, p, anchor, false, next);
        // p's list
        if forall|j: int| 0 <= j < s.len() ==> #[trigger] s[j] == d || (!tree_ids(old).contains(s[j]) && s[j] < next) {
            lemma_apply_ops_concat(p, s, rm, mo);
            lemma_apply_one(p, s, rm[0]);
            let s1 = without(s, d);
            assert forall|j: int| 0 <= j < s1.len() implies s1[j] < next by {
                assert(s1.contains(s1[j]));
                lemma_without_contains(s, d, s1[j]);
                let w = choose|w: int| 0 <= w < s.len() && s[w] == s1[j];
                assert(s[w] == d || s[w] < next);
            }
            lemma_mount_places_nodes(new, out, p, anchor, false, next, s1);
        }
        // elements of the new tree
        lemma_kids_in_tree(out, q);
        if let Some(ks) = kids(out, q) {
            lemma_kids_in_tree(old, q);
            assert(kids(old, q) is None);
            let e = Seq::<NodeId>::empty();
            lemma_apply_ops_concat(q, e, rm, mo);
            lemma_apply_one(q, e, rm[0]);
            lemma_mount_kids(new, out, p, anchor, false, next, q);
        }
        // any other list
        if q != p && !tree_ids(old).contains(q) && !(next <= q < r.1) {
            assert forall|l: Seq<NodeId>|
                (forall|j: int| 0 <= j < l.len() ==> !tree_ids(old).contains(#[trigger] l[j]) && !(next <= l[j] < r.1))
                    implies #[trigger] apply_ops(q, l, r.0) == l by {
                lemma_apply_ops_concat(q, l, rm, mo);
                lemma_apply_one(q, l, rm[0]);
                lemma_apply_within(q, l, mo, p, next as int, hi);
            }
        }
    } else {
        match (old, new) {
            (VNode::Text(_, _), VNode::Text(_, _)) => {
                assert(ops_within(r.0, other, 0, 0)) by {
                    assert forall|i: int| 0 <= i < r.0.len() implies op_within(#[trigger] r.0[i], other, 0, 0) by {}
                }
                assert(ops_within(r.0, p, 0, 0)) by {
                    assert forall|i: int| 0 <= i < r.0.len() implies op_within(#[trigger] r.0[i], p, 0, 0) by {}
                }
                lemma_apply_within(p, s, r.0, other, 0, 0);
                if q != p {
                    assert forall|l: Seq<NodeId>|
                        (forall|j: int| 0 <= j < l.len() ==> !tree_ids(old).contains(#[trigger] l[j]) && !(next <= l[j]
                            < r.1)) implies #[trigger] apply_ops(q, l, r.0) == l by {
                        lemma_apply_within(q, l, r.0, p, 0, 0);
                    }
                }
            },
            (VNode::Element(o), VNode::Element(n)) => {
                let oc = o.children@;
                let nc = n.children@;
                let m1 = oc.len() as int;
                let n1 = nc.len() as int;
                lemma_children_measure(o, n);
                assert(element_target(o, n, p, anchor, next) == (d, next, Seq::<DomOp>::empty()));
                let lp = listener_plan(o, n, d, next);
                let st = old_events_phase(o.events@, n.events@, o.listener_closures@, d, next, o.events@.len() as int);
                lemma_old_events_phase(o.events@, n.events@, o.listener_closures@, d, next, o.events@.len() as int, d, 0, 0);
                lemma_new_events_phase(o.events@, n.events@, d, (st.1, st.2, st.3), n.events@.len() as int, d, 0, 0);
                lemma_old_events_phase(o.events@, n.events@, o.listener_closures@, d, next, o.events@.len() as int, other, 0, 0);
                lemma_new_events_phase(o.events@, n.events@, d, (st.1, st.2, st.3), n.events@.len() as int, other, 0, 0);
                lemma_old_events_phase(o.events@, n.events@, o.listener_closures@, d, next, o.events@.len() as int, p, 0, 0);
                lemma_new_events_phase(o.events@, n.events@, d, (st.1, st.2, st.3), n.events@.len() as int, p, 0, 0);
                let at = attribute_ops(o.attrs@, n.attrs@, d);
                lemma_attribute_ops_within(o.attrs@, n.attrs@, d, n.attrs@.len() as int, d, 0, 0);
                lemma_attribute_ops_within(o.attrs@, n.attrs@, d, o.attrs@.len() as int, d, 0, 0);
                lemma_within_concat(
                    set_changed_attrs_ops(o.attrs@, n.attrs@, d, n.attrs@.len() as int),
                    remove_dropped_attrs_ops(o.attrs@, n.attrs@, d, o.attrs@.len() as int),
                    d,
                    0,
                    0,
                );
                lemma_within_concat(at, lp.1, d, 0, 0);
                lemma_attribute_ops_within(o.attrs@, n.attrs@, d, n.attrs@.len() as int, other, 0, 0);
                lemma_attribute_ops_within(o.attrs@, n.attrs@, d, o.attrs@.len() as int, other, 0, 0);
                lemma_within_concat(
                    set_changed_attrs_ops(o.attrs@, n.attrs@, d, n.attrs@.len() as int),
                    remove_dropped_attrs_ops(o.attrs@, n.attrs@, d, o.attrs@.len() as int),
                    other,
                    0,
                    0,
                );
                lemma_within_concat(at, lp.1, other, 0, 0);
                lemma_attribute_ops_within(o.attrs@, n.attrs@, d, n.attrs@.len() as int, p, 0, 0);
                lemma_attribute_ops_within(o.attrs@, n.attrs@, d, o.attrs@.len() as int, p, 0, 0);
                lemma_within_concat(
                    set_changed_attrs_ops(o.attrs@, n.attrs@, d, n.attrs@.len() as int),
                    remove_dropped_attrs_ops(o.attrs@, n.attrs@, d, o.attrs@.len() as int),
                    p,
                    0,
                    0,
                );
                lemma_within_concat(at, lp.1, p, 0, 0);
                let pre = at + lp.1;
                let c = children_spec(oc, nc, d, lp.2);
                assert(r.0 == pre + c.0) by {
                    assert(Seq::<DomOp>::empty() + at + lp.1 + c.0 =~= pre + c.0);
                }
                assert(r.1 == c.1);
                let x = out->Element_0;
                assert(element_patched(o, n, x, next));
                assert(element_target(o, n, 0, None, next).0 == d);
                assert(x.dom_ref == Some(d));
                let xc = x.children@;
                assert(size(old) == 1 + o.events@.len() + sizes(oc, m1));
                assert(size(new) == 1 + n.events@.len() + sizes(nc, n1));
                assert(forall|y: NodeId| #[trigger] tree_ids_all(oc, m1).contains(y) ==> tree_ids(old).contains(y));
                assert(o.children.len() == oc.len() && n.children.len() == nc.len());
                lemma_children_tree(oc, nc, xc, d, lp.2, q);
                // the element's own list and its descendants'
                assert(sizes(xc, n1) < size(out) || true);
                assert(tree_ids(out) == set![d].union(tree_ids_all(xc, n1)));
                lemma_key_uniform_same(nc, xc);
                // p's list
                if forall|j: int| 0 <= j < s.len() ==> #[trigger] s[j] == d || (!tree_ids(old).contains(s[j]) && s[j] < next) {
                    lemma_apply_within(p, s, pre, d, 0, 0);
                    lemma_apply_ops_concat(p, s, pre, c.0);
                    lemma_children_tree(oc, nc, xc, d, lp.2, p);
                    assert forall|j: int| 0 <= j < s.len() implies !tree_ids_all(oc, m1).contains(#[trigger] s[j]) && !(lp.2
                        <= s[j] < c.1) by {}
                    assert(apply_ops(p, s, c.0) == s);
                }
                if let Some(ks) = kids(out, q) {
                    let b = before_of(kids(old, q));
                    if q == d {
                        let od: NodeId = if d == 0 { 1 } else { 0 };
                        lemma_attribute_ops_within(o.attrs@, n.attrs@, d, n.attrs@.len() as int, od, 0, 0);
                        lemma_attribute_ops_within(o.attrs@, n.attrs@, d, o.attrs@.len() as int, od, 0, 0);
                        lemma_within_concat(
                            set_changed_attrs_ops(o.attrs@, n.attrs@, d, n.attrs@.len() as int),
                            remove_dropped_attrs_ops(o.attrs@, n.attrs@, d, o.attrs@.len() as int),
                            od,
                            0,
                            0,
                        );
                        lemma_old_events_phase(o.events@, n.events@, o.listener_closures@, d, next, o.events@.len() as int, od, 0, 0);
                        lemma_new_events_phase(o.events@, n.events@, d, (st.1, st.2, st.3), n.events@.len() as int, od, 0, 0);
                        lemma_within_concat(at, lp.1, od, 0, 0);
                        lemma_apply_within(q, b, pre, od, 0, 0);
                    } else {
                        lemma_apply_within(q, b, pre, d, 0, 0);
                    }
                    lemma_apply_ops_concat(q, b, pre, c.0);
                }
                if q != p && !tree_ids(old).contains(q) && !(next <= q < r.1) {
                    assert forall|l: Seq<NodeId>|
                        (forall|j: int| 0 <= j < l.len() ==> !tree_ids(old).contains(#[trigger] l[j]) && !(next <= l[j]
                            < r.1)) implies #[trigger] apply_ops(q, l, r.0) == l by {
                        lemma_apply_within(q, l, pre, d, 0, 0);
                        lemma_apply_ops_concat(q, l, pre, c.0);
                        assert forall|j: int| 0 <= j < l.len() implies !tree_ids_all(oc, m1).contains(#[trigger] l[j])
                            && !(lp.2 <= l[j] < c.1) by {}
                    }
                }
            },
            _ => {},
        }
    }
}

/// Patching one tree (possibly empty) within `p`, where its DOM nodes stand
/// between `x` and `rr` in `p`'s list and the anchor is the first of `rr`:
/// the patched tree's nodes take their place.
proof fn lemma_patch_any(
    old: VNode,
    new: VNode,
    out: VNode,
    p: NodeId,
    anchor: Option<NodeId>,
    next: u64,
    x: Seq<NodeId>,
    rr: Seq<NodeId>,
    q: NodeId,
)
    requires
        plain(old),
        plain(new),
        placed(old),
        patched(old, new, out, p, anchor, next),
        next + size(old) + size(new) <= u64::MAX,
        forall|y: NodeId| #[trigger] tree_ids(old).contains(y) ==> y < next,
        p < next,
        !tree_ids(old).contains(p),
        anchor matches Some(a) ==> a < next,
    ensures
        ({
            let r = patch_spec(old, new, p, anchor, next);
            &&& next <= r.1 <= next + size(old) + size(new)
            &&& plain(out)
            &&& placed(out)
            &&& forall|y: NodeId| #[trigger] tree_ids(out).contains(y) ==> tree_ids(old).contains(y) || next <= y < r.1
            &&& spec_key(out) == spec_key(new)
            &&& (out is Empty) == (new is Empty)
            &&& (distinct_nodes(x + dom_nodes(old) + rr) && anchor == (if rr.len() > 0 {
                Some(rr[0])
            } else {
                None::<NodeId>
            }) && (forall|t: int| 0 <= t < x.len() ==> !tree_ids(old).contains(#[trigger] x[t]) && x[t] < next) && (
            forall|t: int| 0 <= t < rr.len() ==> !tree_ids(old).contains(#[trigger] rr[t]) && rr[t] < next)) ==> apply_ops(
                p,
                x + dom_nodes(old) + rr,
                r.0,
            ) == x + dom_nodes(out) + rr
            &&& kids(out, q) matches Some(ks) ==> apply_ops(q, before_of(kids(old, q)), r.0) == ks
            &&& (q != p && !tree_ids(old).contains(q) && !(next <= q < r.1)) ==> forall|l: Seq<NodeId>|
                (forall|j: int| 0 <= j < l.len() ==> !tree_ids(old).contains(#[trigger] l[j]) && !(next <= l[j] < r.1))
                    ==> #[trigger] apply_ops(q, l, r.0) == l
        }),
    decreases size(old) + size(new), 6int, 0int, 0int,
{
    let r = patch_spec(old, new, p, anchor, next);
    let seg = distinct_nodes(x + dom_nodes(old) + rr) && anchor == (if rr.len() > 0 {
        Some(rr[0])
    } else {
        None::<NodeId>
    }) && (forall|t: int| 0 <= t < x.len() ==> !tree_ids(old).contains(#[trigger] x[t]) && x[t] < next) && (forall|t: int|
        0 <= t < rr.len() ==> !tree_ids(old).contains(#[trigger] rr[t]) && rr[t] < next);
    let xr = x + rr;
    if seg {
        assert(distinct_nodes(xr)) by {
            let s2 = x + dom_nodes(old) + rr;
            let dl = dom_nodes(old).len();
            assert forall|a: int, b: int| 0 <= a < b < xr.len() implies xr[a] != xr[b] by {
                let sa = if a < x.len() { a } else { a + dl };
                let sb = if b < x.len() { b } else { b + dl };
                assert(xr[a] == s2[sa]);
                assert(xr[b] == s2[sb]);
            }
        }
    }
    if old is Empty && new is Empty {
        assert(out == new);
        assert(x + dom_nodes(old) + rr =~= x + dom_nodes(out) + rr);
    } else if old is Empty {
        assert(mounted(new, out, false, next));
        lemma_mount_ids_le_size(new);
        lemma_advance_exact(next, mount_ids(new));
        lemma_mounted_ids(new, out, false, next);
        let mo = mount_spec(new, p, anchor, false, next).0;
        assert(r.0 == mo);
        let hi = next + mount_ids(new);
        lemma_mount_within(new, p, anchor, false, next);
        if seg {
            assert(x + dom_nodes(old) + rr =~= xr);
            assert forall|j: int| 0 <= j < xr.len() implies xr[j] < next by {
                if j < x.len() {
                    assert(xr[j] == x[j]);
                } else {
                    assert(xr[j] == rr[j - x.len()]);
                }
            }
            lemma_mount_places_nodes(new, out, p, anchor, false, next, xr);
            lemma_segment_place(x, dom_nodes(out), rr, anchor);
        }
        lemma_mount_kids(new, out, p, anchor, false, next, q);
        if q != p && !tree_ids(old).contains(q) && !(next <= q < r.1) {
            assert forall|l: Seq<NodeId>|
                (forall|j: int| 0 <= j < l.len() ==> !tree_ids(old).contains(#[trigger] l[j]) && !(next <= l[j] < r.1))
                    implies #[trigger] apply_ops(q, l, r.0) == l by {
                lemma_apply_within(q, l, mo, p, next as int, hi);
            }
        }
    } else if new is Empty {
        lemma_dom_in_tree(old);
        let d = spec_dom_node(old)->0;
        assert(out == new);
        let rm = remove_node_ops(p, old);
        assert(rm =~= seq![DomOp::RemoveChild { parent: p, child: d }]);
        assert(r.0 == rm);
        if seg {
            lemma_apply_one(p, x + dom_nodes(old) + rr, rm[0]);
            assert(x + dom_nodes(old) + rr == x + seq![d] + rr);
            lemma_segment_without(x, d, rr);
            assert(x + dom_nodes(out) + rr =~= xr);
        }
        if q != p {
            assert forall|l: Seq<NodeId>|
                (forall|j: int| 0 <= j < l.len() ==> !tree_ids(old).contains(#[trigger] l[j]) && !(next <= l[j] < r.1))
                    implies #[trigger] apply_ops(q, l, r.0) == l by {
                lemma_apply_one(q, l, rm[0]);
            }
        }
    } else if old is Dynamic && new is Dynamic {
        lemma_dom_in_tree(old);
        let d = spec_dom_node(old)->0;
        let nr = new->Dynamic_0;
        let mdyn = DomOp::MountDynamic { render: nr, parent: p, anchor, svg: false, slot: next };
        let rm = remove_node_ops(p, old);
        assert(rm =~= seq![DomOp::RemoveChild { parent: p, child: d }]);
        assert(r.0 =~= rm + seq![mdyn]);
        assert(out == VNode::Dynamic(nr, Some(next)));
        lemma_advance_exact(next, 1);
        assert(r.1 == next + 1);
        assert(tree_ids(out) == set![next]);
        if seg {
            let s2 = x + dom_nodes(old) + rr;
            assert(s2 == x + seq![d] + rr);
            lemma_apply_ops_concat(p, s2, rm, seq![mdyn]);
            lemma_apply_one(p, s2, rm[0]);
            lemma_segment_without(x, d, rr);
            lemma_apply_one(p, xr, mdyn);
            assert(!xr.contains(next)) by {
                if xr.contains(next) {
                    let w = choose|w: int| 0 <= w < xr.len() && xr[w] == next;
                    if w < x.len() {
                        assert(xr[w] == x[w]);
                    } else {
                        assert(xr[w] == rr[w - x.len()]);
                    }
                }
            }
            lemma_without_absent(xr, next);
            lemma_segment_place(x, seq![next], rr, anchor);
        }
        if q != p && !tree_ids(old).contains(q) && !(next <= q < r.1) {
            assert forall|l: Seq<NodeId>|
                (forall|j: int| 0 <= j < l.len() ==> !tree_ids(old).contains(#[trigger] l[j]) && !(next <= l[j] < r.1))
                    implies #[trigger] apply_ops(q, l, r.0) == l by {
                lemma_apply_ops_concat(q, l, rm, seq![mdyn]);
                lemma_apply_one(q, l, rm[0]);
                lemma_apply_one(q, l, mdyn);
                assert(!l.contains(next)) by {
                    if l.contains(next) {
                        let w = choose|w: int| 0 <= w < l.len() && l[w] == next;
                        assert(!(next <= l[w] < r.1));
                    }
                }
                lemma_without_absent(l, next);
            }
        }
    } else {
        lemma_dom_in_tree(old);
        let d = spec_dom_node(old)->0;
        let s2 = x + seq![d] + rr;
        lemma_patch_tree(old, new, out, p, anchor, next, s2, q);
        lemma_dom_in_tree(out);
        if seg {
            assert(x + dom_nodes(old) + rr == s2);
            assert forall|j: int| 0 <= j < s2.len() implies #[trigger] s2[j] == d || (!tree_ids(old).contains(s2[j]) && s2[j]
                < next) by {
                if j < x.len() {
                    assert(s2[j] == x[j]);
                } else if j > x.len() {
                    assert(s2[j] == rr[j - x.len() - 1]);
                }
            }
            if !spec_same_type(old, new) {
                lemma_segment_without(x, d, rr);
                lemma_segment_place(x, seq![spec_dom_node(out)->0], rr, anchor);
            }
        }
    }
}

/// Reconciling the children of `p` (trees without keys): `p` ends up with
/// the new children's nodes, each element of the new children with its
/// children, and nothing else changes.
proof fn lemma_children_tree(
    oc: Seq<VNode>,
    nc: Seq<VNode>,
    outs: Seq<VNode>,
    p: NodeId,
    next: u64,
    q: NodeId,
)
    requires
        plain_all(oc, oc.len() as int),
        plain_all(nc, nc.len() as int),
        placed_all(oc, oc.len() as int),
        key_uniform(oc),
        key_uniform(nc),
        oc.len() <= usize::MAX,
        nc.len() <= usize::MAX,
        outs.len() == nc.len(),
        children_patched(oc, nc, outs, p, next),
        next + sizes(oc, oc.len() as int) + sizes(nc, nc.len() as int) <= u64::MAX,
        forall|y: NodeId| #[trigger] tree_ids_all(oc, oc.len() as int).contains(y) ==> y < next,
        p < next,
        !tree_ids_all(oc, oc.len() as int).contains(p),
    ensures
        ({
            let r = children_spec(oc, nc, p, next);
            let m = oc.len() as int;
            let n = nc.len() as int;
            &&& next <= r.1 <= next + sizes(oc, m) + sizes(nc, n)
            &&& plain_all(outs, n)
            &&& placed_all(outs, n)
            &&& forall|i: int| 0 <= i < n ==> #[trigger] spec_key(outs[i]) == spec_key(nc[i])
            &&& forall|i: int| 0 <= i < n ==> (#[trigger] outs[i] is Empty) == (nc[i] is Empty)
            &&& forall|y: NodeId|
                #[trigger] tree_ids_all(outs, n).contains(y) ==> tree_ids_all(oc, m).contains(y) || next <= y < r.1
            &&& apply_ops(p, dom_nodes_all(oc, m), r.0) == dom_nodes_all(outs, n)
            &&& kids_all(outs, n, q) matches Some(ks) ==> apply_ops(q, before_of(kids_all(oc, m, q)), r.0) == ks
            &&& (q != p && !tree_ids_all(oc, m).contains(q) && !(next <= q < r.1)) ==> forall|l: Seq<NodeId>|
                (forall|j: int| 0 <= j < l.len() ==> !tree_ids_all(oc, m).contains(#[trigger] l[j]) && !(next <= l[j] < r.1))
                    ==> #[trigger] apply_ops(q, l, r.0) == l
        }),
    decreases sizes(oc, oc.len() as int) + sizes(nc, nc.len() as int) + 1, 3int, 0int, 0int,
{
    let m = oc.len() as int;
    let n = nc.len() as int;
    let r = children_spec(oc, nc, p, next);
    if has_keyed(oc) && has_keyed(nc) {
        lemma_keyed_children_tree(oc, nc, outs, p, next, q);
        return;
    }
    let common = if m < n { m } else { n };
    let big_s = dom_nodes_all(oc, m);
    lemma_pairs_tree(oc, nc, outs, p, next, common, q);
    let a = pairs_spec(oc, nc, p, next, common);
    let x = dom_nodes_all(outs, common);
    lemma_sizes_mono_here(oc, common, m);
    lemma_sizes_mono_here(nc, common, n);
    assert forall|y: NodeId| #[trigger] tree_ids_all(oc, common).contains(y) implies tree_ids_all(oc, m).contains(y) by {
        let i = lemma_tree_ids_all_has(oc, common, y);
        lemma_tree_at(oc, m, i);
    }
    let b0 = before_of(kids_all(oc, m, q));
    if n > m {
        let b = mount_range_spec(nc, m, n, p, a.1);
        assert(r.0 == a.0 + b.0);
        assert(doms_from(oc, m) == Seq::<NodeId>::empty());
        assert(x + doms_from(oc, m) =~= x);
        lemma_dom_nodes_in_tree(outs, m);
        assert forall|j: int| 0 <= j < x.len() implies x[j] < a.1 by {
            assert(tree_ids_all(outs, m).contains(x[j]));
        }
        lemma_mount_range_tree(nc, outs, m, n, p, a.1, x, q, Seq::empty());
        lemma_apply_ops_concat(p, big_s, a.0, b.0);
        lemma_doms_between_split(outs, m, n);
        // element lists
        lemma_apply_ops_concat(q, b0, a.0, b.0);
        lemma_kids_all_in_tree(outs, n, q);
        if let Some(ks) = kids_all(outs, n, q) {
            let i = lemma_tree_ids_all_has(outs, n, q);
            lemma_kids_all_at(outs, n, i, q);
            if i < m {
                lemma_tree_at(outs, m, i);
                lemma_kids_all_at(outs, m, i, q);
                lemma_kids_all_in_tree(outs, m, q);
                assert forall|j: int| 0 <= j < ks.len() implies !(a.1 <= #[trigger] ks[j] < b.1) by {
                    assert(tree_ids_all(outs, m).contains(ks[j]));
                }
                lemma_mount_range_tree(nc, outs, m, n, p, a.1, x, q, ks);
            } else {
                lemma_tree_at(outs, n, i);
                assert(!tree_ids_all(outs, m).contains(q)) by {
                    if tree_ids_all(outs, m).contains(q) {
                        let i2 = lemma_tree_ids_all_has(outs, m, q);
                        lemma_tree_at(outs, n, i2);
                    }
                }
                lemma_kids_all_in_tree(oc, m, q);
                assert(kids_all(oc, m, q) is None);
                assert(apply_ops(q, b0, a.0) == b0);
            }
        }
        if q != p && !tree_ids_all(oc, m).contains(q) && !(next <= q < r.1) {
            assert forall|l: Seq<NodeId>|
                (forall|j: int| 0 <= j < l.len() ==> !tree_ids_all(oc, m).contains(#[trigger] l[j]) && !(next <= l[j] < r.1))
                    implies #[trigger] apply_ops(q, l, r.0) == l by {
                lemma_apply_ops_concat(q, l, a.0, b.0);
                assert forall|j: int| 0 <= j < l.len() implies !tree_ids_all(oc, common).contains(#[trigger] l[j]) && !(next
                    <= l[j] < a.1) by {}
                assert(apply_ops(q, l, a.0) == l);
                lemma_mount_range_tree(nc, outs, m, n, p, a.1, x, q, l);
            }
        }
    } else {
        lemma_remove_range_tree(oc, n, m, p, x);
        lemma_apply_ops_concat(p, big_s, a.0, remove_range_ops(oc, n, m, p));
        assert(doms_from(oc, m) == Seq::<NodeId>::empty());
        assert(x + doms_from(oc, m) =~= x);
        let rr = remove_range_ops(oc, n, m, p);
        assert(r.0 == a.0 + rr);
        lemma_apply_ops_concat(q, b0, a.0, rr);
        lemma_kids_all_in_tree(outs, n, q);
        if let Some(ks) = kids_all(outs, n, q) {
            assert(q != p) by {
                if q == p {
                    assert(tree_ids_all(outs, n).contains(p));
                }
            }
            lemma_remove_range_other(oc, n, m, p, q, apply_ops(q, b0, a.0));
        }
        if q != p && !tree_ids_all(oc, m).contains(q) && !(next <= q < r.1) {
            assert forall|l: Seq<NodeId>|
                (forall|j: int| 0 <= j < l.len() ==> !tree_ids_all(oc, m).contains(#[trigger] l[j]) && !(next <= l[j] < r.1))
                    implies #[trigger] apply_ops(q, l, r.0) == l by {
                lemma_apply_ops_concat(q, l, a.0, rr);
                assert forall|j: int| 0 <= j < l.len() implies !tree_ids_all(oc, common).contains(#[trigger] l[j]) && !(next
                    <= l[j] < a.1) by {}
                assert(apply_ops(q, l, a.0) == l);
                lemma_remove_range_other(oc, n, m, p, q, l);
            }
        }
    }
}

/// Patching the first `k` pairs of children (trees without keys) in place.
#[verifier::spinoff_prover]
#[verifier::rlimit(60)]
proof fn lemma_pairs_tree(
    oc: Seq<VNode>,
    nc: Seq<VNode>,
    outs: Seq<VNode>,
    p: NodeId,
    next: u64,
    k: int,
    q: NodeId,
)
    requires
        plain_all(oc, oc.len() as int),
        plain_all(nc, nc.len() as int),
        placed_all(oc, oc.len() as int),
        outs.len() == nc.len(),
        0 <= k <= oc.len(),
        k <= nc.len(),
        pairs_patched(oc, nc, outs, p, next, k),
        next + sizes(oc, oc.len() as int) + sizes(nc, nc.len() as int) <= u64::MAX,
        forall|y: NodeId| #[trigger] tree_ids_all(oc, oc.len() as int).contains(y) ==> y < next,
        p < next,
        !tree_ids_all(oc, oc.len() as int).contains(p),
    ensures
        ({
            let r = pairs_spec(oc, nc, p, next, k);
            let m = oc.len() as int;
            let big_s = dom_nodes_all(oc, m);
            &&& next <= r.1 <= next + sizes(oc, k) + sizes(nc, k)
            &&& plain_all(outs, k)
            &&& placed_all(outs, k)
            &&& forall|i: int| 0 <= i < k ==> #[trigger] spec_key(outs[i]) == spec_key(nc[i])
            &&& forall|y: NodeId|
                #[trigger] tree_ids_all(outs, k).contains(y) ==> tree_ids_all(oc, k).contains(y) || next <= y < r.1
            &&& apply_ops(p, big_s, r.0) == dom_nodes_all(outs, k) + doms_from(oc, k)
            &&& distinct_nodes(dom_nodes_all(outs, k) + doms_from(oc, k))
            &&& forall|i: int| 0 <= i < k ==> (#[trigger] outs[i] is Empty) == (nc[i] is Empty)
            &&& kids_all(outs, k, q) matches Some(ks) ==> apply_ops(q, before_of(kids_all(oc, m, q)), r.0) == ks
            &&& (q != p && !tree_ids_all(oc, k).contains(q) && !(next <= q < r.1)) ==> forall|l: Seq<NodeId>|
                (forall|j: int| 0 <= j < l.len() ==> !tree_ids_all(oc, k).contains(#[trigger] l[j]) && !(next <= l[j] < r.1))
                    ==> #[trigger] apply_ops(q, l, r.0) == l
        }),
    decreases sizes(oc, oc.len() as int) + sizes(nc, nc.len() as int) + 1, 2int, k, 1int,
{
    let m = oc.len() as int;
    let big_s = dom_nodes_all(oc, m);
    if k == 0 {
        lemma_doms_from_split(oc, 0);
        lemma_dom_nodes_all_distinct(oc, m);
        assert(dom_nodes_all(oc, 0) == Seq::<NodeId>::empty());
        assert(dom_nodes_all(outs, 0) == Seq::<NodeId>::empty());
        assert(Seq::<NodeId>::empty() + doms_from(oc, 0) =~= doms_from(oc, 0));
    } else {
        lemma_pairs_tree(oc, nc, outs, p, next, k - 1, q);
        lemma_pairs_step(oc, nc, outs, p, next, k, q);
    }
}

/// One more pair: the facts of the first `k - 1` pairs carry over to `k`.
#[verifier::spinoff_prover]
#[verifier::rlimit(100)]
proof fn lemma_pairs_step(oc: Seq<VNode>, nc: Seq<VNode>, outs: Seq<VNode>, p: NodeId, next: u64, k: int, q: NodeId)
    requires
        plain_all(oc, oc.len() as int),
        plain_all(nc, nc.len() as int),
        placed_all(oc, oc.len() as int),
        outs.len() == nc.len(),
        0 < k <= oc.len(),
        k <= nc.len(),
        pairs_patched(oc, nc, outs, p, next, k),
        next + sizes(oc, oc.len() as int) + sizes(nc, nc.len() as int) <= u64::MAX,
        forall|y: NodeId| #[trigger] tree_ids_all(oc, oc.len() as int).contains(y) ==> y < next,
        p < next,
        !tree_ids_all(oc, oc.len() as int).contains(p),
        ({
            let r = pairs_spec(oc, nc, p, next, k - 1);
            let m = oc.len() as int;
            let big_s = dom_nodes_all(oc, m);
            &&& next <= r.1 <= next + sizes(oc, k - 1) + sizes(nc, k - 1)
            &&& plain_all(outs, k - 1)
            &&& placed_all(outs, k - 1)
            &&& forall|i: int| 0 <= i < k - 1 ==> #[trigger] spec_key(outs[i]) == spec_key(nc[i])
            &&& forall|y: NodeId|
                #[trigger] tree_ids_all(outs, k - 1).contains(y) ==> tree_ids_all(oc, k - 1).contains(y) || next <= y < r.1
            &&& apply_ops(p, big_s, r.0) == dom_nodes_all(outs, k - 1) + doms_from(oc, k - 1)
            &&& distinct_nodes(dom_nodes_all(outs, k - 1) + doms_from(oc, k - 1))
            &&& forall|i: int| 0 <= i < k - 1 ==> (#[trigger] outs[i] is Empty) == (nc[i] is Empty)
            &&& kids_all(outs, k - 1, q) matches Some(ks) ==> apply_ops(q, before_of(kids_all(oc, m, q)), r.0) == ks
            &&& (q != p && !tree_ids_all(oc, k - 1).contains(q) && !(next <= q < r.1)) ==> forall|l: Seq<NodeId>|
                (forall|j: int| 0 <= j < l.len() ==> !tree_ids_all(oc, k - 1).contains(#[trigger] l[j]) && !(next <= l[j]
                    < r.1)) ==> #[trigger] apply_ops(q, l, r.0) == l
        }),
    ensures
        ({
            let r = pairs_spec(oc, nc, p, next, k);
            let m = oc.len() as int;
            let big_s = dom_nodes_all(oc, m);
            &&& next <= r.1 <= next + sizes(oc, k) + sizes(nc, k)
            &&& plain_all(outs, k)
            &&& placed_all(outs, k)
            &&& forall|i: int| 0 <= i < k ==> #[trigger] spec_key(outs[i]) == spec_key(nc[i])
            &&& forall|y: NodeId|
                #[trigger] tree_ids_all(outs, k).contains(y) ==> tree_ids_all(oc, k).contains(y) || next <= y < r.1
            &&& apply_ops(p, big_s, r.0) == dom_nodes_all(outs, k) + doms_from(oc, k)
            &&& distinct_nodes(dom_nodes_all(outs, k) + doms_from(oc, k))
            &&& forall|i: int| 0 <= i < k ==> (#[trigger] outs[i] is Empty) == (nc[i] is Empty)
            &&& kids_all(outs, k, q) matches Some(ks) ==> apply_ops(q, before_of(kids_all(oc, m, q)), r.0) == ks
            &&& (q != p && !tree_ids_all(oc, k).contains(q) && !(next <= q < r.1)) ==> forall|l: Seq<NodeId>|
                (forall|j: int| 0 <= j < l.len() ==> !tree_ids_all(oc, k).contains(#[trigger] l[j]) && !(next <= l[j] < r.1))
                    ==> #[trigger] apply_ops(q, l, r.0) == l
        }),
    decreases sizes(oc, oc.len() as int) + sizes(nc, nc.len() as int) + 1, 2int, k, 0int,
{
    let m = oc.len() as int;
    let big_s = dom_nodes_all(oc, m);
    let i = k - 1;
    let prev = pairs_spec(oc, nc, p, next, i);
    let nid = prev.1;
    super::lemma_size_le_sizes(oc, i);
    super::lemma_size_le_sizes(nc, i);
    lemma_sizes_mono_here(oc, k, m);
    lemma_sizes_mono_here(nc, k, nc.len() as int);
    assert(sizes(oc, k) == sizes(oc, i) + size(oc[i]));
    assert(sizes(nc, k) == sizes(nc, i) + size(nc[i]));
    lemma_tree_at(oc, m, i);
    lemma_tree_at(nc, nc.len() as int, i);
    let anchor = first_dom_from(oc, k);
    lemma_first_dom_from_doms(oc, k);
    let old = oc[i];
    assert(patched(old, nc[i], outs[i], p, anchor, nid));
    let pp = patch_spec(old, nc[i], p, anchor, nid);
    let x0 = dom_nodes_all(outs, i);
    let rest = doms_from(oc, k);
    assert(doms_from(oc, i) == dom_nodes(old) + rest);
    assert(x0 + doms_from(oc, i) =~= x0 + dom_nodes(old) + rest);
    // where the nodes of the list lie
    lemma_dom_nodes_in_tree(outs, i);
    assert forall|t: int| 0 <= t < x0.len() implies !tree_ids(old).contains(#[trigger] x0[t]) && x0[t] < nid by {
        assert(tree_ids_all(outs, i).contains(x0[t]));
        if tree_ids_all(oc, i).contains(x0[t]) {
            let i2 = lemma_tree_ids_all_has(oc, i, x0[t]);
            lemma_tree_at(oc, m, i2);
        }
    }
    assert forall|t: int| 0 <= t < rest.len() implies !tree_ids(old).contains(#[trigger] rest[t]) && rest[t] < next by {
        let j2 = lemma_doms_from_has(oc, k, t);
        lemma_tree_at(oc, m, j2);
    }
    lemma_patch_any(old, nc[i], outs[i], p, anchor, nid, x0, rest, q);
    assert(pairs_spec(oc, nc, p, next, k) == (prev.0 + pp.0, pp.1));
    lemma_apply_ops_concat(p, big_s, prev.0, pp.0);
    assert(sizes(outs, k) == sizes(outs, i) + size(outs[i]));
    assert(dom_nodes_all(outs, k) == x0 + dom_nodes(outs[i]));
    assert(x0 + dom_nodes(outs[i]) + rest =~= dom_nodes_all(outs, k) + rest);
    // the new tree's nodes
    assert forall|y: NodeId| #[trigger] tree_ids_all(outs, i).contains(y) implies !tree_ids(outs[i]).contains(y) by {
        if tree_ids_all(oc, i).contains(y) {
            let i2 = lemma_tree_ids_all_has(oc, i, y);
            lemma_tree_at(oc, m, i2);
        }
    }
    assert(tree_ids_all(outs, i).disjoint(tree_ids(outs[i])));
    // the new list has no repeats
    lemma_dom_nodes_plain(outs[i]);
    let e = dom_nodes(outs[i]);
    let rr = dom_nodes_all(outs, k) + rest;
    let l0 = x0 + dom_nodes(old) + rest;
    assert forall|a: int, b: int| 0 <= a < b < rr.len() implies rr[a] != rr[b] by {
        let xl = x0.len() as int;
        let el = e.len() as int;
        let ol = dom_nodes(old).len() as int;
        assert(distinct_nodes(l0));
        if a < xl && b < xl {
            assert(rr[a] == l0[a] && rr[b] == l0[b]);
        } else if a >= xl + el && b >= xl + el {
            assert(rr[a] == l0[a - el + ol] && rr[b] == l0[b - el + ol]);
        } else if a < xl && b >= xl + el {
            assert(rr[a] == l0[a] && rr[b] == l0[b - el + ol]);
        } else if a < xl {
            assert(rr[b] == e[b - xl]);
            assert(tree_ids(outs[i]).contains(e[b - xl]));
            assert(tree_ids_all(outs, i).contains(x0[a]));
            assert(rr[a] == x0[a]);
        } else {
            assert(rr[a] == e[a - xl]);
            assert(rr[b] == rest[b - xl - el]);
            assert(tree_ids(outs[i]).contains(e[a - xl]));
            let j2 = lemma_doms_from_has(oc, k, b - xl - el);
            lemma_tree_at(oc, m, j2);
            assert(tree_ids(oc[j2]).contains(rest[b - xl - el]));
            assert(rest[b - xl - el] < next);
            assert(j2 != i);
        }
    }
    // element lists
    let b0 = before_of(kids_all(oc, m, q));
    lemma_apply_ops_concat(q, b0, prev.0, pp.0);
    lemma_kids_in_tree(outs[i], q);
    lemma_kids_all_in_tree(outs, i, q);
    if kids(outs[i], q) is Some {
        assert(q != p);
        if tree_ids(old).contains(q) {
            lemma_kids_all_at(oc, m, i, q);
            lemma_kids_in_tree(old, q);
            assert(!tree_ids_all(oc, i).contains(q)) by {
                if tree_ids_all(oc, i).contains(q) {
                    let i2 = lemma_tree_ids_all_has(oc, i, q);
                    lemma_tree_at(oc, m, i2);
                }
            }
            assert forall|j: int| 0 <= j < b0.len() implies !tree_ids_all(oc, i).contains(#[trigger] b0[j]) && !(next
                <= b0[j] < nid) by {
                assert(tree_ids(old).contains(b0[j]));
                if tree_ids_all(oc, i).contains(b0[j]) {
                    let i2 = lemma_tree_ids_all_has(oc, i, b0[j]);
                    lemma_tree_at(oc, m, i2);
                }
            }
            assert(apply_ops(q, b0, prev.0) == b0);
        } else {
            lemma_kids_all_in_tree(oc, m, q);
            lemma_kids_in_tree(old, q);
            assert(!tree_ids_all(oc, m).contains(q));
            assert(!tree_ids_all(oc, i).contains(q)) by {
                if tree_ids_all(oc, i).contains(q) {
                    let i2 = lemma_tree_ids_all_has(oc, i, q);
                    lemma_tree_at(oc, m, i2);
                }
            }
            assert(apply_ops(q, b0, prev.0) == b0);
        }
    } else if let Some(ks) = kids_all(outs, i, q) {
        lemma_kids_all_in_tree(outs, i, q);
        assert forall|j: int| 0 <= j < ks.len() implies !tree_ids(old).contains(#[trigger] ks[j]) && !(nid <= ks[j]
            < pp.1) by {
            assert(tree_ids_all(outs, i).contains(ks[j]));
            if tree_ids_all(oc, i).contains(ks[j]) {
                let i2 = lemma_tree_ids_all_has(oc, i, ks[j]);
                lemma_tree_at(oc, m, i2);
            }
        }
        assert(!tree_ids(old).contains(q)) by {
            if tree_ids_all(oc, i).contains(q) {
                let i2 = lemma_tree_ids_all_has(oc, i, q);
                lemma_tree_at(oc, m, i2);
            }
        }
        assert(q != p) by {
            if q == p {
                if tree_ids_all(oc, i).contains(p) {
                    let i2 = lemma_tree_ids_all_has(oc, i, p);
                    lemma_tree_at(oc, m, i2);
                }
            }
        }
        assert(tree_ids_all(outs, i).contains(q));
        assert(!(nid <= q < pp.1)) by {
            if tree_ids_all(oc, i).contains(q) {
                let i2 = lemma_tree_ids_all_has(oc, i, q);
                lemma_tree_at(oc, m, i2);
                assert(tree_ids_all(oc, m).contains(q));
            }
        }
        assert(apply_ops(q, ks, pp.0) == ks);
    }
    if q != p && !tree_ids_all(oc, k).contains(q) && !(next <= q < pp.1) {
        assert(!tree_ids(old).contains(q));
        assert forall|l: Seq<NodeId>|
            (forall|j: int| 0 <= j < l.len() ==> !tree_ids_all(oc, k).contains(#[trigger] l[j]) && !(next <= l[j] < pp.1))
                implies #[trigger] apply_ops(q, l, pp.0) == l || apply_ops(q, l, prev.0 + pp.0) == l by {
            lemma_apply_ops_concat(q, l, prev.0, pp.0);
            assert forall|j: int| 0 <= j < l.len() implies !tree_ids_all(oc, i).contains(#[trigger] l[j]) && !(next <= l[j]
                < nid) by {}
            assert(apply_ops(q, l, prev.0) == l);
            assert forall|j: int| 0 <= j < l.len() implies !tree_ids(old).contains(#[trigger] l[j]) && !(nid <= l[j] < pp.1) by {}
        }
        assert forall|l: Seq<NodeId>|
            (forall|j: int| 0 <= j < l.len() ==> !tree_ids_all(oc, k).contains(#[trigger] l[j]) && !(next <= l[j] < pp.1))
                implies #[trigger] apply_ops(q, l, prev.0 + pp.0) == l by {
            lemma_apply_ops_concat(q, l, prev.0, pp.0);
            assert forall|j: int| 0 <= j < l.len() implies !tree_ids_all(oc, i).contains(#[trigger] l[j]) && !(next <= l[j]
                < nid) by {}
            assert(apply_ops(q, l, prev.0) == l);
            assert forall|j: int| 0 <= j < l.len() implies !tree_ids(old).contains(#[trigger] l[j]) && !(nid <= l[j] < pp.1) by {}
        }
    }
}

/// Patching updates the DOM to the new tree. Take a mounted root `old` (a
/// tree as `plain` describes, or a fragment of such trees, no two of them
/// carrying the same key), each node with its own DOM node and all of them
/// named below the first fresh identifier `next`, as the only content of
/// `p`, and patch it into a root `new` of the same kind (giving `out`), as
/// `App::update` and `patch_node` plan. Applying the planned operations
/// leaves `p` holding the DOM nodes of `out`, every element of `out`
/// holding exactly the DOM nodes of its children in order (starting from
/// the list it had in the old tree, or from nothing for a new element), and
/// every other node's child list as it was.
pub proof fn lemma_patch_shows_new_tree(old: VNode, new: VNode, out: VNode, p: NodeId, next: u64, q: NodeId)
    requires
        plain_root(old),
        plain_root(new),
        placed_root(old),
        patched(old, new, out, p, None, next),
        next + size(old) + size(new) <= u64::MAX,
        forall|y: NodeId| #[trigger] tree_ids(old).contains(y) ==> y < next,
        p < next,
        !tree_ids(old).contains(p),
    ensures
        ({
            let r = patch_spec(old, new, p, None, next);
            &&& apply_ops(p, dom_nodes(old), r.0) == dom_nodes(out)
            &&& kids(out, q) matches Some(ks) ==> apply_ops(q, before_of(kids(old, q)), r.0) == ks
            &&& (q != p && !tree_ids(old).contains(q) && !(next <= q < r.1)) ==> forall|l: Seq<NodeId>|
                (forall|j: int| 0 <= j < l.len() ==> !tree_ids(old).contains(#[trigger] l[j]) && !(next <= l[j] < r.1))
                    ==> #[trigger] apply_ops(q, l, r.0) == l
        }),
{
    let r = patch_spec(old, new, p, None, next);
    let e = Seq::<NodeId>::empty();
    if plain(old) && plain(new) {
        lemma_patch_any(old, new, out, p, None, next, e, e, q);
        lemma_dom_nodes_plain(old);
        assert(e + dom_nodes(old) + e =~= dom_nodes(old));
        assert(e + dom_nodes(out) + e =~= dom_nodes(out));
    } else if old is Fragment && new is Fragment {
        let ocv = old->Fragment_0;
        let ncv = new->Fragment_0;
        let oc = ocv@;
        let nc = ncv@;
        assert(sizes(oc, oc.len() as int) + sizes(nc, nc.len() as int) + 1 < size(old) + size(new));
        assert(r == children_spec(oc, nc, p, next));
        let x = out->Fragment_0@;
        assert(ocv.len() == oc.len() && ncv.len() == nc.len());
        assert(tree_ids(old) == tree_ids_all(oc, oc.len() as int));
        lemma_children_tree(oc, nc, x, p, next, q);
    } else {
        assert(!spec_same_type(old, new));
        assert(mounted(new, out, false, next));
        lemma_mount_ids_le_size(new);
        lemma_advance_exact(next, mount_ids(new));
        let d = dom_nodes(old);
        let rm = remove_node_ops(p, old);
        let mo = mount_spec(new, p, None, false, next).0;
        if old is Empty {
            assert(rm =~= Seq::<DomOp>::empty());
        }
        if new is Empty {
            assert(mo =~= Seq::<DomOp>::empty());
        }
        assert(r.0 =~= rm + mo);
        let hi = next + mount_ids(new);
        assert(r.1 == hi);
        lemma_mount_within(new, p, None, false, next);
        lemma_mount_root_kids(new, out, p, next, q);
        // p's list
        lemma_apply_ops_concat(p, d, rm, mo);
        lemma_apply_removals(p, d, d);
        lemma_without_all_self(d);
        lemma_mount_places_nodes(new, out, p, None, false, next, e);
        assert(e + dom_nodes(out) =~= dom_nodes(out));
        // elements of the new tree
        if let Some(ks) = kids(out, q) {
            if plain(new) {
                lemma_mounted_ids(new, out, false, next);
                lemma_kids_in_tree(out, q);
            } else {
                let cs = new->Fragment_0@;
                let o = out->Fragment_0@;
                assert(sizes(cs, cs.len() as int) < size(new));
                lemma_mounted_all_ids(cs, o, cs.len() as int, false, next);
                lemma_kids_all_in_tree(o, o.len() as int, q);
            }
            assert(tree_ids(out).contains(q));
            if plain(old) {
                lemma_kids_in_tree(old, q);
            } else {
                let ocs = old->Fragment_0@;
                lemma_kids_all_in_tree(ocs, ocs.len() as int, q);
            }
            assert(kids(old, q) is None);
            lemma_apply_ops_concat(q, e, rm, mo);
            lemma_removals_other(p, d, q, e);
        }
        // any other list
        if q != p && !tree_ids(old).contains(q) && !(next <= q < r.1) {
            assert forall|l: Seq<NodeId>|
                (forall|j: int| 0 <= j < l.len() ==> !tree_ids(old).contains(#[trigger] l[j]) && !(next <= l[j] < r.1))
                    implies #[trigger] apply_ops(q, l, r.0) == l by {
                lemma_apply_ops_concat(q, l, rm, mo);
                lemma_removals_other(p, d, q, l);
                lemma_apply_within(q, l, mo, p, next as int, hi);
            }
        }
    }
}

/// Reconciling children updates the DOM to the new children. Take mounted
/// trees as `plain` describes as the children of `p` (whose child list is
/// then their DOM nodes), each node with its own DOM node and all of them
/// named below `next`, with no two of them carrying the same key, and
/// patch them into `nc` (of the same kind, giving `outs`), keyed or by
/// position, as `patch_children` plans. Applying the planned operations
/// leaves `p` holding the DOM nodes of `outs` in order, every element
/// inside them holding exactly its children's DOM nodes in order, and every
/// other node's child list as it was.
pub proof fn lemma_children_show_new_trees(
    oc: Seq<VNode>,
    nc: Seq<VNode>,
    outs: Seq<VNode>,
    p: NodeId,
    next: u64,
    q: NodeId,
)
    requires
        plain_all(oc, oc.len() as int),
        plain_all(nc, nc.len() as int),
        placed_all(oc, oc.len() as int),
        key_uniform(oc),
        key_uniform(nc),
        oc.len() <= usize::MAX,
        nc.len() <= usize::MAX,
        outs.len() == nc.len(),
        children_patched(oc, nc, outs, p, next),
        next + sizes(oc, oc.len() as int) + sizes(nc, nc.len() as int) <= u64::MAX,
        forall|y: NodeId| #[trigger] tree_ids_all(oc, oc.len() as int).contains(y) ==> y < next,
        p < next,
        !tree_ids_all(oc, oc.len() as int).contains(p),
    ensures
        ({
            let r = children_spec(oc, nc, p, next);
            let m = oc.len() as int;
            &&& apply_ops(p, dom_nodes_all(oc, m), r.0) == dom_nodes_all(outs, nc.len() as int)
            &&& kids_all(outs, nc.len() as int, q) matches Some(ks) ==> apply_ops(q, before_of(kids_all(oc, m, q)), r.0)
                == ks
            &&& (q != p && !tree_ids_all(oc, m).contains(q) && !(next <= q < r.1)) ==> forall|l: Seq<NodeId>|
                (forall|j: int| 0 <= j < l.len() ==> !tree_ids_all(oc, m).contains(#[trigger] l[j]) && !(next <= l[j] < r.1))
                    ==> #[trigger] apply_ops(q, l, r.0) == l
        }),
{
    lemma_children_tree(oc, nc, outs, p, next, q);
}

// ---------------------------------------------------------------------------
// Keyed children of whole trees
// ---------------------------------------------------------------------------

proof fn lemma_source_facts_keys(oc: Seq<VNode>, nc: Seq<VNode>, k: int)
    requires
        distinct_keys(oc),
        distinct_keys(nc),
        oc.len() <= usize::MAX,
        nc.len() <= usize::MAX,
        0 <= k < nc.len(),
    ensures
        source_facts(oc, nc, k),
{
    let m = oc.len() as int;
    let n = nc.len() as int;
    let reuse = reuse_map(oc, nc);
    let kk = spec_key(nc[k])->0;
    assert forall|i: int| 0 <= i < m && reuse[i] == Some(k as usize) implies keyed_source(oc, nc, k) == Some(i) by {
        assert(spec_key(oc[i]) is Some);
        let ki = spec_key(oc[i])->0;
        lemma_last_key_index_bound(nc, ki, n);
        assert(spec_key(nc[k]) == Some(ki));
        lemma_key_found(oc, kk, i, m);
    }
    if let Some(oi) = keyed_source(oc, nc, k) {
        lemma_last_key_index_bound(oc, kk, m);
        lemma_key_found(nc, kk, k, n);
        assert(reuse[oi] == Some(k as usize));
        assert forall|j: int| k < j < n && keyed_source(oc, nc, k) is Some implies #[trigger] keyed_source(oc, nc, j)
            != keyed_source(oc, nc, k) by {
            if spec_key(nc[j]) is Some {
                let kj = spec_key(nc[j])->0;
                lemma_last_key_index_bound(oc, kj, m);
                assert(spec_key(nc[k]) != spec_key(nc[j]));
            }
        }
    }
}

/// Old child `i` is taken over by one of the new children from `k` on.
spec fn used_by(oc: Seq<VNode>, nc: Seq<VNode>, k: int, i: int) -> bool {
    exists|j: int| k <= j < nc.len() && keyed_source(oc, nc, j) == Some(i)
}

/// The sizes of the first `t` old children taken over from `k` on.
spec fn used_sizes(oc: Seq<VNode>, nc: Seq<VNode>, k: int, t: int) -> nat
    decreases t,
{
    if t <= 0 {
        0
    } else {
        used_sizes(oc, nc, k, t - 1) + if used_by(oc, nc, k, t - 1) {
            size(oc[t - 1])
        } else {
            0
        }
    }
}

proof fn lemma_used_sizes_le(oc: Seq<VNode>, nc: Seq<VNode>, k: int, t: int)
    requires
        0 <= t <= oc.len(),
    ensures
        used_sizes(oc, nc, k, t) <= sizes(oc, t),
    decreases t,
{
    if t > 0 {
        lemma_used_sizes_le(oc, nc, k, t - 1);
    }
}

proof fn lemma_used_sizes_none(oc: Seq<VNode>, nc: Seq<VNode>, t: int)
    ensures
        used_sizes(oc, nc, nc.len() as int, t) == 0,
    decreases t,
{
    if t > 0 {
        lemma_used_sizes_none(oc, nc, t - 1);
    }
}

/// One more new child takes over old child `src` (or none).
proof fn lemma_used_sizes_step(oc: Seq<VNode>, nc: Seq<VNode>, k: int, t: int)
    requires
        0 <= k < nc.len(),
        0 <= t <= oc.len(),
        keyed_source(oc, nc, k) matches Some(oi) ==> !used_by(oc, nc, k + 1, oi) && 0 <= oi < oc.len(),
    ensures
        used_sizes(oc, nc, k, t) == used_sizes(oc, nc, k + 1, t) + match keyed_source(oc, nc, k) {
            Some(oi) => if oi < t {
                size(oc[oi])
            } else {
                0
            },
            None => 0,
        },
    decreases t,
{
    if t > 0 {
        lemma_used_sizes_step(oc, nc, k, t - 1);
        let i = t - 1;
        if used_by(oc, nc, k, i) {
            let j = choose|j: int| k <= j < nc.len() && keyed_source(oc, nc, j) == Some(i);
            if j > k {
                assert(used_by(oc, nc, k + 1, i));
            }
        }
        if used_by(oc, nc, k + 1, i) {
            let j = choose|j: int| k + 1 <= j < nc.len() && keyed_source(oc, nc, j) == Some(i);
            assert(used_by(oc, nc, k, i));
        }
        if keyed_source(oc, nc, k) == Some(i) {
            assert(used_by(oc, nc, k, i));
        }
    }
}

/// Trees that are each placed and pairwise share no node are placed together.
proof fn lemma_placed_all_pairwise(cs: Seq<VNode>, k: int)
    requires
        0 <= k <= cs.len(),
        forall|j: int| 0 <= j < k ==> plain(#[trigger] cs[j]) && placed(cs[j]),
        forall|a: int, b: int, y: NodeId|
            0 <= a < b < k && #[trigger] tree_ids(cs[a]).contains(y) ==> !#[trigger] tree_ids(cs[b]).contains(y),
    ensures
        plain_all(cs, k),
        placed_all(cs, k),
    decreases k,
{
    if k > 0 {
        lemma_placed_all_pairwise(cs, k - 1);
        assert(sizes(cs, k) == sizes(cs, k - 1) + size(cs[k - 1]));
        assert(tree_ids_all(cs, k - 1).disjoint(tree_ids(cs[k - 1]))) by {
            assert forall|y: NodeId| #[trigger] tree_ids_all(cs, k - 1).contains(y) implies !tree_ids(cs[k - 1]).contains(y) by {
                let a = lemma_tree_ids_all_has(cs, k - 1, y);
                assert(tree_ids(cs[a]).contains(y));
            }
        }
    }
}

/// What holds once the new keyed children from `k` on are handled (beside
/// the order facts of `keyed_inv`): the identifiers used, the trees made,
/// their elements' lists, and every other list left alone.
spec fn keyed_tree_facts(
    oc: Seq<VNode>,
    nc: Seq<VNode>,
    outs: Seq<VNode>,
    p: NodeId,
    next: u64,
    k: int,
    q: NodeId,
) -> bool {
    let n = nc.len() as int;
    let m = oc.len() as int;
    let lis = stable_children(oc, nc);
    let res = keyed_steps(oc, nc, p, lis, next, k);
    &&& next <= res.1 <= next + (sizes(nc, n) - sizes(nc, k)) + used_sizes(oc, nc, k, m)
    &&& forall|j: int|
        k <= j < n ==> plain(#[trigger] outs[j]) && placed(outs[j]) && spec_key(outs[j]) == spec_key(nc[j]) && !(
        outs[j] is Empty)
    &&& forall|j: int, y: NodeId|
        k <= j < n && #[trigger] tree_ids(outs[j]).contains(y) ==> (keyed_source(oc, nc, j) is Some && tree_ids(
            oc[keyed_source(oc, nc, j)->0],
        ).contains(y)) || (next <= y < res.1)
    &&& forall|a: int, b: int, y: NodeId|
        k <= a < b < n && #[trigger] tree_ids(outs[a]).contains(y) ==> !#[trigger] tree_ids(outs[b]).contains(y)
    &&& forall|j: int|
        k <= j < n && kids(#[trigger] outs[j], q) is Some ==> apply_ops(q, before_of(kids_all(oc, m, q)), res.0) == kids(
            outs[j],
            q,
        )->0
    &&& (q != p && !(next <= q < res.1) && forall|j: int|
        k <= j < n && #[trigger] keyed_source(oc, nc, j) is Some ==> !tree_ids(oc[keyed_source(oc, nc, j)->0]).contains(
            q,
        )) ==> forall|l: Seq<NodeId>|
        (forall|t: int|
            0 <= t < l.len() ==> !(next <= #[trigger] l[t] < res.1) && forall|j: int|
                k <= j < n && #[trigger] keyed_source(oc, nc, j) is Some ==> !tree_ids(
                    oc[keyed_source(oc, nc, j)->0],
                ).contains(l[t])) ==> #[trigger] apply_ops(q, l, res.0) == l
}

/// The keyed setting of whole trees.
spec fn keyed_tree_setting(oc: Seq<VNode>, nc: Seq<VNode>, outs: Seq<VNode>, p: NodeId, next: u64) -> bool {
    &&& plain_all(oc, oc.len() as int)
    &&& plain_all(nc, nc.len() as int)
    &&& placed_all(oc, oc.len() as int)
    &&& distinct_keys(oc)
    &&& distinct_keys(nc)
    &&& forall|i: int| 0 <= i < oc.len() ==> !(#[trigger] oc[i] is Empty)
    &&& forall|i: int| 0 <= i < nc.len() ==> !(#[trigger] nc[i] is Empty)
    &&& oc.len() <= usize::MAX
    &&& nc.len() <= usize::MAX
    &&& outs.len() == nc.len()
    &&& next + sizes(oc, oc.len() as int) + sizes(nc, nc.len() as int) <= u64::MAX
    &&& forall|y: NodeId| #[trigger] tree_ids_all(oc, oc.len() as int).contains(y) ==> y < next
    &&& p < next
    &&& !tree_ids_all(oc, oc.len() as int).contains(p)
}

proof fn lemma_keyed_tree_steps(
    oc: Seq<VNode>,
    nc: Seq<VNode>,
    outs: Seq<VNode>,
    p: NodeId,
    next: u64,
    l0: Seq<NodeId>,
    k: int,
    q: NodeId,
)
    requires
        keyed_tree_setting(oc, nc, outs, p, next),
        0 <= k <= nc.len(),
        keyed_patched(oc, nc, outs, p, stable_children(oc, nc), next, k),
        distinct_nodes(l0),
        forall|i: int|
            0 <= i < oc.len() ==> (l0.contains(#[trigger] own_doms(oc, oc.len() as int)[i]) <==> reuse_map(oc, nc)[i] is Some),
        forall|y: NodeId| #[trigger] l0.contains(y) ==> own_doms(oc, oc.len() as int).contains(y),
        forall|a: int, b: int|
            0 <= a < b < oc.len() && l0.contains(own_doms(oc, oc.len() as int)[a]) && l0.contains(
                own_doms(oc, oc.len() as int)[b],
            ) ==> before(l0, #[trigger] own_doms(oc, oc.len() as int)[a], #[trigger] own_doms(oc, oc.len() as int)[b]),
    ensures
        ({
            let lis = stable_children(oc, nc);
            let res = keyed_steps(oc, nc, p, lis, next, k);
            &&& keyed_inv(oc, nc, outs, lis, next, own_doms(oc, oc.len() as int), k, apply_ops(p, l0, res.0), res.1, res.2)
            &&& keyed_tree_facts(oc, nc, outs, p, next, k, q)
        }),
    decreases sizes(oc, oc.len() as int) + sizes(nc, nc.len() as int) + 1, 2int, nc.len() - k, 2int,
{
    let m = oc.len() as int;
    let n = nc.len() as int;
    let s = own_doms(oc, m);
    let lis = stable_children(oc, nc);
    let reuse = reuse_map(oc, nc);
    lemma_own_doms_distinct(oc, m);
    if k == n {
        let l = l0;
        assert(apply_ops(p, l0, Seq::<DomOp>::empty()) == l0);
        lemma_used_sizes_none(oc, nc, m);
        assert forall|i: int| 0 <= i < m && #[trigger] reused_before(reuse, i, k) implies l.contains(s[i]) by {}
        assert forall|y: NodeId| #[trigger] l.contains(y) implies y < next && (exists|i: int|
            0 <= i < m && y == s[i] && #[trigger] reused_before(reuse, i, k)) by {
            let i = choose|i: int| 0 <= i < s.len() && s[i] == y;
            assert(reuse[i] is Some);
            assert(spec_key(oc[i]) is Some);
            lemma_last_key_index_bound(nc, spec_key(oc[i])->0, n);
            assert(reused_before(reuse, i, k));
            assert(tree_ids(oc[i]).contains(s[i]));
            lemma_tree_at(oc, m, i);
        }
        assert forall|a: int, b: int|
            0 <= a < b < m && lis.contains(a as usize) && lis.contains(b as usize) && l.contains(s[a]) && l.contains(s[b])
                implies before(l, #[trigger] s[a], #[trigger] s[b]) by {}
    } else {
        lemma_keyed_tree_steps(oc, nc, outs, p, next, l0, k + 1, q);
        lemma_keyed_tree_step(oc, nc, outs, p, next, l0, k, q);
    }
}

#[verifier::spinoff_prover]
#[verifier::rlimit(100)]
proof fn lemma_keyed_tree_step(
    oc: Seq<VNode>,
    nc: Seq<VNode>,
    outs: Seq<VNode>,
    p: NodeId,
    next: u64,
    l0: Seq<NodeId>,
    k: int,
    q: NodeId,
)
    requires
        keyed_tree_setting(oc, nc, outs, p, next),
        0 <= k < nc.len(),
        keyed_patched(oc, nc, outs, p, stable_children(oc, nc), next, k),
        ({
            let lis = stable_children(oc, nc);
            let res = keyed_steps(oc, nc, p, lis, next, k + 1);
            &&& keyed_inv(
                oc,
                nc,
                outs,
                lis,
                next,
                own_doms(oc, oc.len() as int),
                k + 1,
                apply_ops(p, l0, res.0),
                res.1,
                res.2,
            )
            &&& keyed_tree_facts(oc, nc, outs, p, next, k + 1, q)
        }),
    ensures
        ({
            let lis = stable_children(oc, nc);
            let res = keyed_steps(oc, nc, p, lis, next, k);
            &&& keyed_inv(oc, nc, outs, lis, next, own_doms(oc, oc.len() as int), k, apply_ops(p, l0, res.0), res.1, res.2)
            &&& keyed_tree_facts(oc, nc, outs, p, next, k, q)
        }),
    decreases sizes(oc, oc.len() as int) + sizes(nc, nc.len() as int) + 1, 2int, nc.len() - k, 1int,
{
    let m = oc.len() as int;
    let n = nc.len() as int;
    let s = own_doms(oc, m);
    let lis = stable_children(oc, nc);
    let reuse = reuse_map(oc, nc);
    lemma_own_doms_distinct(oc, m);
    lemma_source_facts_keys(oc, nc, k);
    assert forall|i: int| 0 <= i < s.len() implies s[i] < next by {
        lemma_tree_at(oc, m, i);
    }
    let prev = keyed_steps(oc, nc, p, lis, next, k + 1);
    let big_l = apply_ops(p, l0, prev.0);
    let anchor = prev.2;
    let res = keyed_steps(oc, nc, p, lis, next, k);
    lemma_tree_at(nc, n, k);
    super::lemma_size_le_sizes(nc, k);
    assert(sizes(nc, k + 1) == sizes(nc, k) + size(nc[k]));
    lemma_used_sizes_le(oc, nc, k, m);
    lemma_used_sizes_le(oc, nc, k + 1, m);
    if let Some(oi) = keyed_source(oc, nc, k) {
        assert(!used_by(oc, nc, k + 1, oi)) by {
            if used_by(oc, nc, k + 1, oi) {
                let j = choose|j: int| k + 1 <= j < nc.len() && keyed_source(oc, nc, j) == Some(oi);
                assert(keyed_source(oc, nc, j) != keyed_source(oc, nc, k));
            }
        }
    }
    lemma_used_sizes_step(oc, nc, k, m);
    if k + 1 < n {
        assert(big_l.contains(xnode(outs, k + 1)));
    }
    assert forall|j: int| 0 <= j < big_l.len() implies big_l[j] < prev.1 by {
        assert(big_l.contains(big_l[j]));
    }
    lemma_mount_ids_le_size(nc[k]);
    match keyed_source(oc, nc, k) {
        Some(oi) => {
            lemma_last_key_index_bound(oc, spec_key(nc[k])->0, m);
            lemma_tree_at(oc, m, oi);
            super::lemma_size_le_sizes(oc, oi);
            let d = s[oi];
            assert(reused_before(reuse, oi, k + 1));
            assert(big_l.contains(d));
            let pp = patch_spec(oc[oi], nc[k], p, anchor, prev.1);
            assert(patched(oc[oi], nc[k], outs[k], p, anchor, prev.1));
            assert forall|y: NodeId| #[trigger] tree_ids(oc[oi]).contains(y) implies y < prev.1 by {}
            lemma_patch_tree(oc[oi], nc[k], outs[k], p, anchor, prev.1, big_l, q);
            lemma_dom_in_tree(oc[oi]);
            // what big_l holds: d, or nodes outside old child oi
            assert forall|j: int| 0 <= j < big_l.len() implies #[trigger] big_l[j] == d || (!tree_ids(oc[oi]).contains(
                big_l[j],
            ) && big_l[j] < prev.1) by {
                let y = big_l[j];
                assert(big_l.contains(y));
                if exists|t: int| k + 1 <= t < n && y == #[trigger] xnode(outs, t) {
                    let t = choose|t: int| k + 1 <= t < n && y == #[trigger] xnode(outs, t);
                    lemma_dom_in_tree(outs[t]);
                    if keyed_source(oc, nc, t) is Some && tree_ids(oc[keyed_source(oc, nc, t)->0]).contains(y) {
                        let ot = keyed_source(oc, nc, t)->0;
                        assert(ot != oi);
                        lemma_last_key_index_bound(oc, spec_key(nc[t])->0, m);
                        lemma_tree_at(oc, m, ot);
                    }
                } else {
                    let i = choose|i: int| 0 <= i < m && y == s[i] && #[trigger] reused_before(reuse, i, k + 1);
                    if i != oi {
                        lemma_tree_at(oc, m, i);
                    }
                }
            }
            lemma_apply_ops_concat(p, l0, prev.0, pp.0);
            lemma_dom_in_tree(outs[k]);
            if spec_same_type(oc[oi], nc[k]) {
                let oe = oc[oi]->Element_0;
                let ne = nc[k]->Element_0;
                assert(element_target(oe, ne, p, anchor, prev.1).0 == d);
                let root = kept_element(oc[oi], nc[k], p, anchor, prev.1);
                assert(root == Some(d));
                if lis.contains(oi as usize) {
                    super::children::lemma_lis_filtered_increasing(reuse);
                    assert(res.0 == prev.0 + pp.0 + Seq::<DomOp>::empty());
                    assert(prev.0 + pp.0 + Seq::<DomOp>::empty() == prev.0 + pp.0);
                    lemma_keyed_stable_step(oc, nc, outs, lis, next, s, k, big_l, prev.1, anchor);
                    lemma_keyed_inv_mono(oc, nc, outs, lis, next, s, k, big_l, prev.1, pp.1, Some(d));
                } else {
                    let mv = seq![insert_op(p, d, anchor)];
                    assert(res.0 == prev.0 + pp.0 + mv);
                    lemma_apply_ops_concat(p, l0, prev.0 + pp.0, mv);
                    lemma_apply_one(p, big_l, mv[0]);
                    lemma_keyed_place_step(oc, nc, outs, lis, next, s, k, big_l, prev.1, anchor, without(big_l, d), d, pp.1);
                }
            } else {
                assert(res.0 == prev.0 + pp.0);
                lemma_remove_keeps_order(big_l, d);
                lemma_keyed_place_step(
                    oc,
                    nc,
                    outs,
                    lis,
                    next,
                    s,
                    k,
                    big_l,
                    prev.1,
                    anchor,
                    without(big_l, d),
                    prev.1,
                    pp.1,
                );
            }
        },
        None => {
            let mo = mount_spec(nc[k], p, anchor, false, prev.1);
            assert(res.0 == prev.0 + mo.0);
            lemma_apply_ops_concat(p, l0, prev.0, mo.0);
            assert(mounted(nc[k], outs[k], false, prev.1));
            lemma_mounted_ids(nc[k], outs[k], false, prev.1);
            lemma_advance_exact(prev.1, mount_ids(nc[k]));
            lemma_mount_places_nodes(nc[k], outs[k], p, anchor, false, prev.1, big_l);
            lemma_keyed_place_step(
                oc,
                nc,
                outs,
                lis,
                next,
                s,
                k,
                big_l,
                prev.1,
                anchor,
                big_l,
                prev.1,
                (prev.1 + mount_ids(nc[k])) as u64,
            );
        },
    }
    lemma_keyed_tree_step_lists(oc, nc, outs, p, next, l0, k, q);
}

/// The child lists a placed element tree gives never hold its own node.
proof fn lemma_kids_not_root(v: VNode, q: NodeId)
    requires
        plain(v),
        placed(v),
    ensures
        kids(v, q) matches Some(ks) ==> !ks.contains(spec_dom_node(v)->0) && forall|j: int|
            0 <= j < ks.len() ==> tree_ids(v).contains(#[trigger] ks[j]),
{
    lemma_kids_in_tree(v, q);
    if let VNode::Element(el) = v {
        let n = el.children@.len() as int;
        assert(sizes(el.children@, n) < size(v));
        lemma_kids_all_in_tree(el.children@, n, q);
        lemma_dom_nodes_in_tree(el.children@, n);
        if let Some(ks) = kids(v, q) {
            if ks.contains(el.dom_ref->0) {
                let w = choose|w: int| 0 <= w < ks.len() && ks[w] == el.dom_ref->0;
                assert(tree_ids_all(el.children@, n).contains(ks[w]));
            }
        }
    }
}

#[verifier::spinoff_prover]
#[verifier::rlimit(100)]
proof fn lemma_keyed_tree_step_lists(
    oc: Seq<VNode>,
    nc: Seq<VNode>,
    outs: Seq<VNode>,
    p: NodeId,
    next: u64,
    l0: Seq<NodeId>,
    k: int,
    q: NodeId,
)
    requires
        keyed_tree_setting(oc, nc, outs, p, next),
        0 <= k < nc.len(),
        keyed_patched(oc, nc, outs, p, stable_children(oc, nc), next, k),
        keyed_tree_facts(oc, nc, outs, p, next, k + 1, q),
        ({
            let lis = stable_children(oc, nc);
            let res = keyed_steps(oc, nc, p, lis, next, k + 1);
            keyed_inv(oc, nc, outs, lis, next, own_doms(oc, oc.len() as int), k + 1, apply_ops(p, l0, res.0), res.1, res.2)
        }),
    ensures
        keyed_tree_facts(oc, nc, outs, p, next, k, q),
    decreases sizes(oc, oc.len() as int) + sizes(nc, nc.len() as int) + 1, 2int, nc.len() - k, 0int,
{
    let m = oc.len() as int;
    let n = nc.len() as int;
    let lis = stable_children(oc, nc);
    lemma_source_facts_keys(oc, nc, k);
    let prev = keyed_steps(oc, nc, p, lis, next, k + 1);
    let anchor = prev.2;
    let res = keyed_steps(oc, nc, p, lis, next, k);
    let b = before_of(kids_all(oc, m, q));
    if k + 1 < n {
        assert(apply_ops(p, l0, prev.0).contains(xnode(outs, k + 1)));
    }
    lemma_tree_at(nc, n, k);
    super::lemma_size_le_sizes(nc, k);
    assert(sizes(nc, k + 1) == sizes(nc, k) + size(nc[k]));
    lemma_sizes_mono_here(nc, k + 1, n);
    lemma_used_sizes_le(oc, nc, k, m);
    if let Some(oi) = keyed_source(oc, nc, k) {
        assert(!used_by(oc, nc, k + 1, oi)) by {
            if used_by(oc, nc, k + 1, oi) {
                let j = choose|j: int| k + 1 <= j < nc.len() && keyed_source(oc, nc, j) == Some(oi);
                assert(keyed_source(oc, nc, j) != keyed_source(oc, nc, k));
            }
        }
    }
    lemma_used_sizes_step(oc, nc, k, m);
    lemma_mount_ids_le_size(nc[k]);
    lemma_kids_all_in_tree(oc, m, q);
    // the old trees taken over later lie apart from each other
    assert forall|j: int, y: NodeId|
        k <= j < n && keyed_source(oc, nc, j) is Some && #[trigger] tree_ids(oc[keyed_source(oc, nc, j)->0]).contains(y)
            implies y < next && tree_ids_all(oc, m).contains(y) by {
        lemma_last_key_index_bound(oc, spec_key(nc[j])->0, m);
        lemma_tree_at(oc, m, keyed_source(oc, nc, j)->0);
    }
    match keyed_source(oc, nc, k) {
        Some(oi) => {
            lemma_last_key_index_bound(oc, spec_key(nc[k])->0, m);
            lemma_tree_at(oc, m, oi);
            super::lemma_size_le_sizes(oc, oi);
            let d = own_doms(oc, m)[oi];
            lemma_own_doms_distinct(oc, m);
            lemma_dom_in_tree(oc[oi]);
            let pp = patch_spec(oc[oi], nc[k], p, anchor, prev.1);
            assert(patched(oc[oi], nc[k], outs[k], p, anchor, prev.1));
            assert forall|y: NodeId| #[trigger] tree_ids(oc[oi]).contains(y) implies y < prev.1 by {}
            let mv: Seq<DomOp> = if spec_same_type(oc[oi], nc[k]) && !lis.contains(oi as usize) {
                seq![insert_op(p, d, anchor)]
            } else {
                Seq::empty()
            };
            if spec_same_type(oc[oi], nc[k]) {
                let oe = oc[oi]->Element_0;
                let ne = nc[k]->Element_0;
                assert(element_target(oe, ne, p, anchor, prev.1).0 == d);
                assert(kept_element(oc[oi], nc[k], p, anchor, prev.1) == Some(d));
            }
            assert(res.0 == prev.0 + pp.0 + mv);
            assert(res.1 == pp.1);
            // an element list `l` of a node other than p, without d, stays through mv
            assert forall|l: Seq<NodeId>| q != p && !l.contains(d) implies #[trigger] apply_ops(q, l, mv) == l by {
                if mv.len() > 0 {
                    lemma_apply_one(q, l, mv[0]);
                    lemma_without_absent(l, d);
                }
            }
            // elements of the tree made for child k
            lemma_patch_tree(oc[oi], nc[k], outs[k], p, anchor, prev.1, Seq::empty(), q);
            lemma_kids_not_root(outs[k], q);
            lemma_kids_in_tree(oc[oi], q);
            lemma_kids_in_tree(outs[k], q);
            if let Some(ks) = kids(outs[k], q) {
                assert(tree_ids(outs[k]).contains(q));
                assert(tree_ids(oc[oi]).contains(q) || prev.1 <= q);
                assert(q != p);
                lemma_apply_ops_concat(q, b, prev.0, pp.0);
                lemma_apply_ops_concat(q, b, prev.0 + pp.0, mv);
                if tree_ids(oc[oi]).contains(q) {
                    lemma_kids_all_at(oc, m, oi, q);
                    lemma_kids_in_tree(oc[oi], q);
                    assert forall|t: int| 0 <= t < b.len() implies !(next <= #[trigger] b[t] < prev.1) && forall|j: int|
                        k + 1 <= j < n && #[trigger] keyed_source(oc, nc, j) is Some ==> !tree_ids(
                            oc[keyed_source(oc, nc, j)->0],
                        ).contains(b[t]) by {
                        assert(tree_ids(oc[oi]).contains(b[t]));
                        assert forall|j: int| k + 1 <= j < n && #[trigger] keyed_source(oc, nc, j) is Some implies !tree_ids(
                            oc[keyed_source(oc, nc, j)->0],
                        ).contains(b[t]) by {
                            lemma_last_key_index_bound(oc, spec_key(nc[j])->0, m);
                            assert(keyed_source(oc, nc, j) != keyed_source(oc, nc, k));
                        }
                    }
                    assert forall|j: int| k + 1 <= j < n && #[trigger] keyed_source(oc, nc, j) is Some implies !tree_ids(
                        oc[keyed_source(oc, nc, j)->0],
                    ).contains(q) by {
                        lemma_last_key_index_bound(oc, spec_key(nc[j])->0, m);
                        assert(keyed_source(oc, nc, j) != keyed_source(oc, nc, k));
                    }
                    assert(apply_ops(q, b, prev.0) == b);
                } else {
                    assert(!tree_ids_all(oc, m).contains(q)) by {
                        if tree_ids_all(oc, m).contains(q) {
                            let i2 = lemma_tree_ids_all_has(oc, m, q);
                            lemma_tree_at(oc, m, i2);
                            lemma_tree_at(oc, m, oi);
                        }
                    }
                    assert(b == Seq::<NodeId>::empty());
                    assert(apply_ops(q, b, prev.0) == b);
                }
                if spec_same_type(oc[oi], nc[k]) {
                    assert(spec_dom_node(outs[k]) == Some(d));
                    assert(!ks.contains(d));
                }
            }
            // elements of the trees made for later children
            assert forall|j: int| k <= j < n && kids(#[trigger] outs[j], q) is Some implies apply_ops(q, b, res.0) == kids(
                outs[j],
                q,
            )->0 by {
                if j > k {
                    let ks = kids(outs[j], q)->0;
                    lemma_tree_at(outs, n, j);
                    lemma_kids_not_root(outs[j], q);
                    lemma_kids_in_tree(outs[j], q);
                    assert(apply_ops(q, b, prev.0) == ks);
                    assert(q != p);
                    assert forall|t: int| 0 <= t < ks.len() implies !tree_ids(oc[oi]).contains(#[trigger] ks[t]) && !(
                    prev.1 <= ks[t] < pp.1) by {
                        assert(tree_ids(outs[j]).contains(ks[t]));
                        if keyed_source(oc, nc, j) is Some && tree_ids(oc[keyed_source(oc, nc, j)->0]).contains(ks[t]) {
                            lemma_last_key_index_bound(oc, spec_key(nc[j])->0, m);
                            assert(keyed_source(oc, nc, j) != keyed_source(oc, nc, k));
                        }
                    }
                    assert(!tree_ids(oc[oi]).contains(q) && !(prev.1 <= q < pp.1)) by {
                        assert(tree_ids(outs[j]).contains(q));
                        if keyed_source(oc, nc, j) is Some && tree_ids(oc[keyed_source(oc, nc, j)->0]).contains(q) {
                            lemma_last_key_index_bound(oc, spec_key(nc[j])->0, m);
                            assert(keyed_source(oc, nc, j) != keyed_source(oc, nc, k));
                        }
                    }
                    lemma_patch_tree(oc[oi], nc[k], outs[k], p, anchor, prev.1, Seq::empty(), q);
                    assert(apply_ops(q, ks, pp.0) == ks);
                    lemma_apply_ops_concat(q, b, prev.0, pp.0);
                    lemma_apply_ops_concat(q, b, prev.0 + pp.0, mv);
                    assert(!ks.contains(d)) by {
                        if ks.contains(d) {
                            let w = choose|w: int| 0 <= w < ks.len() && ks[w] == d;
                            assert(!tree_ids(oc[oi]).contains(ks[w]));
                        }
                    }
                }
            }
            // every other list
            if q != p && !(next <= q < res.1) && forall|j: int|
                k <= j < n && #[trigger] keyed_source(oc, nc, j) is Some ==> !tree_ids(oc[keyed_source(oc, nc, j)->0]).contains(
                    q,
                ) {
                assert(keyed_source(oc, nc, k) is Some);
                assert forall|l: Seq<NodeId>|
                    (forall|t: int|
                        0 <= t < l.len() ==> !(next <= #[trigger] l[t] < res.1) && forall|j: int|
                            k <= j < n && #[trigger] keyed_source(oc, nc, j) is Some ==> !tree_ids(
                                oc[keyed_source(oc, nc, j)->0],
                            ).contains(l[t])) implies #[trigger] apply_ops(q, l, res.0) == l by {
                    assert(apply_ops(q, l, prev.0) == l);
                    assert forall|t: int| 0 <= t < l.len() implies !tree_ids(oc[oi]).contains(#[trigger] l[t]) && !(prev.1
                        <= l[t] < pp.1) by {
                        assert(keyed_source(oc, nc, k) is Some);
                    }
                    assert(apply_ops(q, l, pp.0) == l);
                    lemma_apply_ops_concat(q, l, prev.0, pp.0);
                    lemma_apply_ops_concat(q, l, prev.0 + pp.0, mv);
                    assert(!l.contains(d)) by {
                        if l.contains(d) {
                            let w = choose|w: int| 0 <= w < l.len() && l[w] == d;
                            assert(keyed_source(oc, nc, k) is Some);
                        }
                    }
                }
            }
            // trees apart
            assert forall|a: int, c: int, y: NodeId|
                k <= a < c < n && #[trigger] tree_ids(outs[a]).contains(y) implies !#[trigger] tree_ids(outs[c]).contains(y) by {
                if a == k && tree_ids(outs[c]).contains(y) {
                    if keyed_source(oc, nc, c) is Some && tree_ids(oc[keyed_source(oc, nc, c)->0]).contains(y) {
                        lemma_last_key_index_bound(oc, spec_key(nc[c])->0, m);
                        assert(keyed_source(oc, nc, c) != keyed_source(oc, nc, k));
                    }
                }
            }
        },
        None => {
            let mo = mount_spec(nc[k], p, anchor, false, prev.1);
            assert(res.0 == prev.0 + mo.0);
            assert(mounted(nc[k], outs[k], false, prev.1));
            lemma_mounted_ids(nc[k], outs[k], false, prev.1);
            lemma_advance_exact(prev.1, mount_ids(nc[k]));
            let hi = prev.1 + mount_ids(nc[k]);
            assert(res.1 == hi);
            lemma_mount_within(nc[k], p, anchor, false, prev.1);
            lemma_mount_kids(nc[k], outs[k], p, anchor, false, prev.1, q);
            lemma_kids_in_tree(outs[k], q);
            if let Some(ks) = kids(outs[k], q) {
                lemma_apply_ops_concat(q, b, prev.0, mo.0);
                assert(!tree_ids_all(oc, m).contains(q));
                assert(b == Seq::<NodeId>::empty());
                assert(apply_ops(q, b, prev.0) == b);
            }
            assert forall|j: int| k <= j < n && kids(#[trigger] outs[j], q) is Some implies apply_ops(q, b, res.0) == kids(
                outs[j],
                q,
            )->0 by {
                if j > k {
                    let ks = kids(outs[j], q)->0;
                    lemma_kids_in_tree(outs[j], q);
                    assert(apply_ops(q, b, prev.0) == ks);
                    lemma_apply_ops_concat(q, b, prev.0, mo.0);
                    assert(!(prev.1 <= q < hi));
                    assert forall|t: int| 0 <= t < ks.len() implies !(prev.1 <= #[trigger] ks[t] < hi) by {
                        assert(tree_ids(outs[j]).contains(ks[t]));
                    }
                    lemma_apply_within(q, ks, mo.0, p, prev.1 as int, hi);
                }
            }
            if q != p && !(next <= q < res.1) && forall|j: int|
                k <= j < n && #[trigger] keyed_source(oc, nc, j) is Some ==> !tree_ids(oc[keyed_source(oc, nc, j)->0]).contains(
                    q,
                ) {
                assert forall|l: Seq<NodeId>|
                    (forall|t: int|
                        0 <= t < l.len() ==> !(next <= #[trigger] l[t] < res.1) && forall|j: int|
                            k <= j < n && #[trigger] keyed_source(oc, nc, j) is Some ==> !tree_ids(
                                oc[keyed_source(oc, nc, j)->0],
                            ).contains(l[t])) implies #[trigger] apply_ops(q, l, res.0) == l by {
                    lemma_apply_ops_concat(q, l, prev.0, mo.0);
                    assert forall|j: int|
                        k + 1 <= j < n && #[trigger] keyed_source(oc, nc, j) is Some implies !tree_ids(
                            oc[keyed_source(oc, nc, j)->0],
                        ).contains(q) by {}
                    assert forall|t: int|
                        0 <= t < l.len() implies !(next <= #[trigger] l[t] < prev.1) && forall|j: int|
                            k + 1 <= j < n && #[trigger] keyed_source(oc, nc, j) is Some ==> !tree_ids(
                                oc[keyed_source(oc, nc, j)->0],
                            ).contains(l[t]) by {}
                    assert(apply_ops(q, l, prev.0) == l);
                    lemma_apply_within(q, l, mo.0, p, prev.1 as int, hi);
                }
            }
        },
    }
}

/// Reconciling keyed children of whole trees.
proof fn lemma_keyed_children_tree(oc: Seq<VNode>, nc: Seq<VNode>, outs: Seq<VNode>, p: NodeId, next: u64, q: NodeId)
    requires
        plain_all(oc, oc.len() as int),
        plain_all(nc, nc.len() as int),
        placed_all(oc, oc.len() as int),
        key_uniform(oc),
        key_uniform(nc),
        has_keyed(oc),
        has_keyed(nc),
        oc.len() <= usize::MAX,
        nc.len() <= usize::MAX,
        outs.len() == nc.len(),
        children_patched(oc, nc, outs, p, next),
        next + sizes(oc, oc.len() as int) + sizes(nc, nc.len() as int) <= u64::MAX,
        forall|y: NodeId| #[trigger] tree_ids_all(oc, oc.len() as int).contains(y) ==> y < next,
        p < next,
        !tree_ids_all(oc, oc.len() as int).contains(p),
    ensures
        ({
            let r = children_spec(oc, nc, p, next);
            let m = oc.len() as int;
            let n = nc.len() as int;
            &&& next <= r.1 <= next + sizes(oc, m) + sizes(nc, n)
            &&& plain_all(outs, n)
            &&& placed_all(outs, n)
            &&& forall|i: int| 0 <= i < n ==> #[trigger] spec_key(outs[i]) == spec_key(nc[i])
            &&& forall|i: int| 0 <= i < n ==> (#[trigger] outs[i] is Empty) == (nc[i] is Empty)
            &&& forall|y: NodeId|
                #[trigger] tree_ids_all(outs, n).contains(y) ==> tree_ids_all(oc, m).contains(y) || next <= y < r.1
            &&& apply_ops(p, dom_nodes_all(oc, m), r.0) == dom_nodes_all(outs, n)
            &&& kids_all(outs, n, q) matches Some(ks) ==> apply_ops(q, before_of(kids_all(oc, m, q)), r.0) == ks
            &&& (q != p && !tree_ids_all(oc, m).contains(q) && !(next <= q < r.1)) ==> forall|l: Seq<NodeId>|
                (forall|j: int| 0 <= j < l.len() ==> !tree_ids_all(oc, m).contains(#[trigger] l[j]) && !(next <= l[j] < r.1))
                    ==> #[trigger] apply_ops(q, l, r.0) == l
        }),
    decreases sizes(oc, oc.len() as int) + sizes(nc, nc.len() as int) + 1, 2int, nc.len() + 1, 0int,
{
    let m = oc.len() as int;
    let n = nc.len() as int;
    let r = children_spec(oc, nc, p, next);
    let lis = stable_children(oc, nc);
    let reuse = reuse_map(oc, nc);
    // both lists carry keys throughout
    let w1 = choose|i: int| 0 <= i < oc.len() && #[trigger] spec_key(oc[i]) is Some;
    let w2 = choose|i: int| 0 <= i < nc.len() && #[trigger] spec_key(nc[i]) is Some;
    lemma_own_doms_distinct(oc, m);
    let s = own_doms(oc, m);
    assert forall|i: int| 0 <= i < m implies !(oc[i] is Fragment) && spec_dom_node(#[trigger] oc[i]) is Some by {
        lemma_tree_at(oc, m, i);
    }
    lemma_own_doms(oc, m);
    assert forall|i: int| 0 <= i < oc.len() implies #[trigger] dom_nodes(oc[i]) == seq![s[i]] by {}
    lemma_keyed_removals_model(oc, reuse, p, m, s);
    let rm = keyed_removals(oc, reuse, p, m);
    let l0 = apply_ops(p, s, rm);
    assert forall|i: int| 0 <= i < oc.len() implies (l0.contains(#[trigger] s[i]) <==> reuse[i] is Some) by {}
    lemma_keyed_tree_steps(oc, nc, outs, p, next, l0, 0, q);
    let st = keyed_steps(oc, nc, p, lis, next, 0);
    assert(r.0 == rm + st.0);
    assert(children_patched(oc, nc, outs, p, next) == keyed_patched(oc, nc, outs, p, lis, next, 0));
    lemma_apply_ops_concat(p, s, rm, st.0);
    let l = apply_ops(p, l0, st.0);
    lemma_used_sizes_le(oc, nc, 0, m);
    // the trees made
    lemma_placed_all_pairwise(outs, n);
    assert forall|y: NodeId| #[trigger] tree_ids_all(outs, n).contains(y) implies tree_ids_all(oc, m).contains(y) || next
        <= y < r.1 by {
        let j = lemma_tree_ids_all_has(outs, n, y);
        if keyed_source(oc, nc, j) is Some && tree_ids(oc[keyed_source(oc, nc, j)->0]).contains(y) {
            lemma_last_key_index_bound(oc, spec_key(nc[j])->0, m);
            lemma_tree_at(oc, m, keyed_source(oc, nc, j)->0);
        }
    }
    // p's list
    let d = own_doms(outs, n);
    assert forall|y: NodeId| #[trigger] l.contains(y) <==> d.contains(y) by {
        if l.contains(y) {
            if exists|j: int| 0 <= j < n && y == #[trigger] xnode(outs, j) {
                let j = choose|j: int| 0 <= j < n && y == #[trigger] xnode(outs, j);
                assert(d[j] == y);
            } else {
                let i = choose|i: int| 0 <= i < m && y == s[i] && #[trigger] reused_before(reuse, i, 0);
                assert(false);
            }
        }
        if d.contains(y) {
            let j = choose|j: int| 0 <= j < d.len() && d[j] == y;
            assert(l.contains(xnode(outs, j)));
        }
    }
    assert forall|a: int, b: int| 0 <= a < b < d.len() implies before(l, #[trigger] d[a], #[trigger] d[b]) by {
        assert(before(l, xnode(outs, a), xnode(outs, b)));
    }
    lemma_same_nodes_in_order(l, d);
    lemma_own_doms(outs, n);
    // element lists
    let bq = before_of(kids_all(oc, m, q));
    lemma_kids_all_in_tree(outs, n, q);
    if let Some(ks) = kids_all(outs, n, q) {
        let j = lemma_tree_ids_all_has(outs, n, q);
        lemma_kids_all_at(outs, n, j, q);
        assert(q != p);
        lemma_apply_ops_concat(q, bq, rm, st.0);
        lemma_removals_other_all(oc, reuse, p, m, q, bq);
    }
    if q != p && !tree_ids_all(oc, m).contains(q) && !(next <= q < r.1) {
        assert forall|j: int| 0 <= j < n && #[trigger] keyed_source(oc, nc, j) is Some implies !tree_ids(
            oc[keyed_source(oc, nc, j)->0],
        ).contains(q) by {
            lemma_last_key_index_bound(oc, spec_key(nc[j])->0, m);
            lemma_tree_at(oc, m, keyed_source(oc, nc, j)->0);
        }
        assert forall|lst: Seq<NodeId>|
            (forall|j: int| 0 <= j < lst.len() ==> !tree_ids_all(oc, m).contains(#[trigger] lst[j]) && !(next <= lst[j] < r.1))
                implies #[trigger] apply_ops(q, lst, r.0) == lst by {
            lemma_apply_ops_concat(q, lst, rm, st.0);
            lemma_removals_other_all(oc, reuse, p, m, q, lst);
            assert forall|t: int| 0 <= t < lst.len() implies !(next <= #[trigger] lst[t] < st.1) && forall|j: int|
                0 <= j < n && #[trigger] keyed_source(oc, nc, j) is Some ==> !tree_ids(oc[keyed_source(oc, nc, j)->0]).contains(
                    lst[t],
                ) by {
                assert forall|j: int| 0 <= j < n && #[trigger] keyed_source(oc, nc, j) is Some implies !tree_ids(
                    oc[keyed_source(oc, nc, j)->0],
                ).contains(lst[t]) by {
                    lemma_last_key_index_bound(oc, spec_key(nc[j])->0, m);
                    lemma_tree_at(oc, m, keyed_source(oc, nc, j)->0);
                }
            }
        }
    }
}

/// Removing unused keyed children from `p` leaves every other list alone.
proof fn lemma_removals_other_all(
    oc: Seq<VNode>,
    reuse: Seq<Option<usize>>,
    p: NodeId,
    k: int,
    q: NodeId,
    l: Seq<NodeId>,
)
    requires
        q != p,
    ensures
        apply_ops(q, l, keyed_removals(oc, reuse, p, k)) == l,
    decreases k,
{
    if k > 0 {
        lemma_removals_other_all(oc, reuse, p, k - 1, q, l);
        let tail: Seq<DomOp> = if reuse[k - 1] is None {
            remove_node_ops(p, oc[k - 1])
        } else {
            Seq::empty()
        };
        lemma_apply_ops_concat(q, l, keyed_removals(oc, reuse, p, k - 1), tail);
        if reuse[k - 1] is None {
            lemma_removals_other(p, dom_nodes(oc[k - 1]), q, l);
        }
    }
}

/// The keyed invariant holds for any larger next identifier.
proof fn lemma_keyed_inv_mono(
    oc: Seq<VNode>,
    nc: Seq<VNode>,
    outs: Seq<VNode>,
    lis: Seq<usize>,
    next: u64,
    s: Seq<NodeId>,
    k: int,
    l: Seq<NodeId>,
    nid0: u64,
    nid: u64,
    anchor: Option<NodeId>,
)
    requires
        keyed_inv(oc, nc, outs, lis, next, s, k, l, nid0, anchor),
        nid0 <= nid,
    ensures
        keyed_inv(oc, nc, outs, lis, next, s, k, l, nid, anchor),
{
}

// ---------------------------------------------------------------------------
// The root of an application: a tree, or a fragment of trees
// ---------------------------------------------------------------------------

/// What an application renders: a tree as `plain` describes, or a fragment
/// of such trees, no two carrying the same key.
pub open spec fn plain_root(v: VNode) -> bool {
    ||| plain(v)
    ||| match v {
        VNode::Fragment(cs) => plain_all(cs@, cs@.len() as int) && key_uniform(cs@),
        _ => false,
    }
}

/// A rendered root: placed as a tree, or as a fragment of placed trees.
pub open spec fn placed_root(v: VNode) -> bool {
    ||| placed(v)
    ||| match v {
        VNode::Fragment(cs) => placed_all(cs@, cs@.len() as int),
        _ => false,
    }
}

/// Taking every node of a list out of it leaves nothing.
proof fn lemma_without_all_self(s: Seq<NodeId>)
    ensures
        without_all(s, s) == Seq::<NodeId>::empty(),
{
    let r = without_all(s, s);
    if r.len() > 0 {
        assert(r.contains(r[0]));
        lemma_without_all_contains(s, s, r[0]);
    }
    assert(r =~= Seq::<NodeId>::empty());
}

/// Mounting a fragment gives every new element its children.
proof fn lemma_mount_fragment_kids(
    cs: Seq<VNode>,
    outs: Seq<VNode>,
    k: int,
    parent: NodeId,
    anchor: Option<NodeId>,
    svg: bool,
    next: u64,
    q: NodeId,
)
    requires
        mounted_all(cs, outs, k, svg, next),
        0 <= k <= cs.len(),
        k <= outs.len(),
        plain_all(cs, k),
        next + ids_before(cs, k) <= u64::MAX,
        parent < next,
    ensures
        kids_all(outs, k, q) matches Some(ks) ==> apply_ops(
            q,
            Seq::empty(),
            mount_fragment_spec(cs, k, parent, anchor, svg, next).0,
        ) == ks,
    decreases k,
{
    let e = Seq::<NodeId>::empty();
    if k > 0 {
        assert(sizes(cs, k) == sizes(cs, k - 1) + size(cs[k - 1]));
        lemma_mount_fragment_kids(cs, outs, k - 1, parent, anchor, svg, next, q);
        lemma_mounted_all_ids(cs, outs, k - 1, svg, next);
        let start = advance(next, ids_before(cs, k - 1));
        lemma_advance_exact(next, ids_before(cs, k - 1));
        let hi = start + mount_ids(cs[k - 1]);
        lemma_mounted_ids(cs[k - 1], outs[k - 1], svg, start);
        let a = mount_fragment_spec(cs, k - 1, parent, anchor, svg, next).0;
        let b = mount_spec(cs[k - 1], parent, anchor, svg, start).0;
        assert(mount_fragment_spec(cs, k, parent, anchor, svg, next).0 == a + b);
        lemma_apply_ops_concat(q, e, a, b);
        lemma_kids_in_tree(outs[k - 1], q);
        lemma_kids_all_in_tree(outs, k - 1, q);
        if kids(outs[k - 1], q) is Some {
            lemma_fragment_within(cs, k - 1, parent, anchor, svg, next);
            lemma_apply_within(q, e, a, parent, next as int, start as int);
            lemma_mount_kids(cs[k - 1], outs[k - 1], parent, anchor, svg, start, q);
        } else if let Some(ks) = kids_all(outs, k - 1, q) {
            lemma_mount_within(cs[k - 1], parent, anchor, svg, start);
            assert forall|j: int| 0 <= j < ks.len() implies !(start <= #[trigger] ks[j] < hi) by {
                assert(tree_ids_all(outs, k - 1).contains(ks[j]));
            }
            lemma_apply_within(q, ks, b, parent, start as int, hi);
        }
    }
}

/// Mounting a root gives every new element its children.
proof fn lemma_mount_root_kids(v: VNode, out: VNode, p: NodeId, next: u64, q: NodeId)
    requires
        mounted(v, out, false, next),
        plain_root(v),
        next + mount_ids(v) <= u64::MAX,
        p < next,
    ensures
        kids(out, q) matches Some(ks) ==> apply_ops(q, Seq::empty(), mount_spec(v, p, None, false, next).0) == ks,
        forall|y: NodeId| #[trigger] tree_ids(out).contains(y) ==> next <= y < next + mount_ids(v),
{
    if plain(v) {
        lemma_mount_kids(v, out, p, None, false, next, q);
        lemma_mounted_ids(v, out, false, next);
    } else {
        let cs = v->Fragment_0@;
        let o = out->Fragment_0@;
        assert(sizes(cs, cs.len() as int) < size(v));
        lemma_mount_fragment_kids(cs, o, cs.len() as int, p, None, false, next, q);
        lemma_mounted_all_ids(cs, o, cs.len() as int, false, next);
        assert(o.len() == cs.len());
        assert(tree_ids(out) == tree_ids_all(o, cs.len() as int));
        assert(mount_ids(v) == ids_before(cs, cs.len() as int));
    }
}

/// Mounting an application builds every element of the rendered root: after
/// `App::mount`'s operations (clear the mount point, mount the root), each
/// element of the mounted root holds exactly the DOM nodes of its children,
/// in order.
pub proof fn lemma_app_mount_builds_elements(vnode: VNode, out: VNode, mp: NodeId, next: u64, q: NodeId)
    requires
        mounted(vnode, out, false, next),
        plain_root(vnode),
        next + mount_ids(vnode) <= u64::MAX,
        mp < next,
    ensures
        kids(out, q) matches Some(ks) ==> apply_ops(
            q,
            Seq::empty(),
            seq![DomOp::ClearChildren { node: mp }] + mount_spec(vnode, mp, None, false, next).0,
        ) == ks,
{
    lemma_mount_root_kids(vnode, out, mp, next, q);
    if let Some(ks) = kids(out, q) {
        if plain(vnode) {
            lemma_mounted_ids(vnode, out, false, next);
            lemma_kids_in_tree(out, q);
        } else {
            let cs = vnode->Fragment_0@;
            let o = out->Fragment_0@;
            assert(sizes(cs, cs.len() as int) < size(vnode));
            lemma_mounted_all_ids(cs, o, cs.len() as int, false, next);
            lemma_kids_all_in_tree(o, o.len() as int, q);
        }
        assert(tree_ids(out).contains(q));
        let e = Seq::<NodeId>::empty();
        let clear = seq![DomOp::ClearChildren { node: mp }];
        lemma_apply_ops_concat(q, e, clear, mount_spec(vnode, mp, None, false, next).0);
        lemma_apply_one(q, e, clear[0]);
    }
}

// ---------------------------------------------------------------------------
// Mounting sets every attribute
// ---------------------------------------------------------------------------

/// Every attribute operation among `ops` is on a node from `lo` on.
spec fn attr_ops_from(ops: Seq<DomOp>, lo: int) -> bool {
    forall|i: int|
        0 <= i < ops.len() ==> match #[trigger] ops[i] {
            DomOp::SetAttribute { node, .. } => lo <= node,
            DomOp::RemoveAttribute { node, .. } => lo <= node,
            _ => true,
        }
}

proof fn lemma_attr_ops_from_concat(a: Seq<DomOp>, b: Seq<DomOp>, lo: int)
    requires
        attr_ops_from(a, lo),
        attr_ops_from(b, lo),
    ensures
        attr_ops_from(a + b, lo),
{
    assert forall|i: int| 0 <= i < (a + b).len() implies match #[trigger] (a + b)[i] {
        DomOp::SetAttribute { node, .. } => lo <= node,
        DomOp::RemoveAttribute { node, .. } => lo <= node,
        _ => true,
    } by {
        if i < a.len() {
            assert((a + b)[i] == a[i]);
        } else {
            assert((a + b)[i] == b[i - a.len()]);
        }
    }
}

proof fn lemma_attr_ops_from_weaken(a: Seq<DomOp>, lo: int, lo2: int)
    requires
        attr_ops_from(a, lo),
        lo2 <= lo,
    ensures
        attr_ops_from(a, lo2),
{
    assert forall|i: int| 0 <= i < a.len() implies match #[trigger] a[i] {
        DomOp::SetAttribute { node, .. } => lo2 <= node,
        DomOp::RemoveAttribute { node, .. } => lo2 <= node,
        _ => true,
    } by {
        assert(match a[i] {
            DomOp::SetAttribute { node, .. } => lo <= node,
            DomOp::RemoveAttribute { node, .. } => lo <= node,
            _ => true,
        });
    }
}

/// Operations whose attribute changes are all on later nodes leave the
/// attributes of `node` alone.
proof fn lemma_apply_attr_ops_other(m: Map<Seq<char>, Seq<char>>, ops: Seq<DomOp>, node: NodeId, lo: int)
    requires
        attr_ops_from(ops, lo),
        node < lo,
    ensures
        apply_attr_ops(m, ops, node) == m,
    decreases ops.len(),
{
    if ops.len() > 0 {
        let d = ops.drop_last();
        assert(attr_ops_from(d, lo)) by {
            assert forall|i: int| 0 <= i < d.len() implies match #[trigger] d[i] {
                DomOp::SetAttribute { node, .. } => lo <= node,
                DomOp::RemoveAttribute { node, .. } => lo <= node,
                _ => true,
            } by {
                assert(d[i] == ops[i]);
            }
        }
        lemma_apply_attr_ops_other(m, d, node, lo);
        assert(match ops[ops.len() - 1] {
            DomOp::SetAttribute { node, .. } => lo <= node,
            DomOp::RemoveAttribute { node, .. } => lo <= node,
            _ => true,
        });
    }
}

proof fn lemma_set_all_attrs_from(attrs: Seq<(String, String)>, node: NodeId, k: int)
    ensures
        attr_ops_from(set_all_attrs_ops(attrs, node, k), node as int),
    decreases k,
{
    if k > 0 {
        lemma_set_all_attrs_from(attrs, node, k - 1);
        let a = set_all_attrs_ops(attrs, node, k - 1);
        let op = DomOp::SetAttribute { node, name: attrs[k - 1].0, value: attrs[k - 1].1 };
        assert(attr_ops_from(seq![op], node as int)) by {
            assert(seq![op][0] == op);
        }
        lemma_attr_ops_from_concat(a, seq![op], node as int);
        assert(a.push(op) =~= a + seq![op]);
    }
}

proof fn lemma_listeners_attr_from(events: Seq<(String, EventHandler)>, node: NodeId, first: u64, k: int, lo: int)
    ensures
        attr_ops_from(add_listeners_ops(events, node, first, k), lo),
    decreases k,
{
    if k > 0 {
        lemma_listeners_attr_from(events, node, first, k - 1, lo);
        let a = add_listeners_ops(events, node, first, k - 1);
        let op = DomOp::AddListener {
            node,
            event: events[k - 1].0,
            handler: events[k - 1].1.0,
            listener: advance(first, (k - 1) as nat),
        };
        assert(attr_ops_from(seq![op], lo)) by {
            assert(seq![op][0] == op);
        }
        lemma_attr_ops_from_concat(a, seq![op], lo);
        assert(a.push(op) =~= a + seq![op]);
    }
}

/// Mounting changes attributes only of the nodes it creates.
proof fn lemma_mount_attr_from(v: VNode, q: NodeId, anchor: Option<NodeId>, svg: bool, next: u64)
    requires
        next + mount_ids(v) <= u64::MAX,
    ensures
        attr_ops_from(mount_spec(v, q, anchor, svg, next).0, next as int),
    decreases size(v), 0nat,
{
    let ops = mount_spec(v, q, anchor, svg, next).0;
    match v {
        VNode::Element(el) => {
            let n = el.children@.len() as int;
            assert(sizes(el.children@, n) < size(v));
            let ns = is_svg_tag(el.tag@) || svg;
            let first = advance(next, 1 + el.events@.len());
            lemma_advance_exact(next, 1 + el.events@.len());
            let c0 = seq![DomOp::CreateElement { node: next, tag: el.tag, svg: ns }];
            assert(attr_ops_from(c0, next as int)) by {
                assert(c0[0] == DomOp::CreateElement { node: next, tag: el.tag, svg: ns });
            }
            let a = set_all_attrs_ops(el.attrs@, next, el.attrs@.len() as int);
            lemma_set_all_attrs_from(el.attrs@, next, el.attrs@.len() as int);
            let l = add_listeners_ops(el.events@, next, succ(next), el.events@.len() as int);
            lemma_listeners_attr_from(el.events@, next, succ(next), el.events@.len() as int, next as int);
            let c = mount_children_ops(el.children@, n, next, ns, first);
            lemma_children_attr_from(el.children@, n, next, ns, first);
            lemma_attr_ops_from_weaken(c, first as int, next as int);
            let ins = seq![insert_op(q, next, anchor)];
            assert(attr_ops_from(ins, next as int)) by {
                assert(ins[0] == insert_op(q, next, anchor));
            }
            lemma_attr_ops_from_concat(c0, a, next as int);
            lemma_attr_ops_from_concat(c0 + a, l, next as int);
            lemma_attr_ops_from_concat(c0 + a + l, c, next as int);
            lemma_attr_ops_from_concat(c0 + a + l + c, ins, next as int);
        },
        VNode::Fragment(cs) => {
            assert(sizes(cs@, cs@.len() as int) < size(v));
            lemma_fragment_attr_from(cs@, cs@.len() as int, q, anchor, svg, next);
        },
        _ => {
            assert forall|i: int| 0 <= i < ops.len() implies match #[trigger] ops[i] {
                DomOp::SetAttribute { node, .. } => next <= node,
                DomOp::RemoveAttribute { node, .. } => next <= node,
                _ => true,
            } by {}
        },
    }
}

proof fn lemma_children_attr_from(cs: Seq<VNode>, k: int, parent: NodeId, svg: bool, next: u64)
    requires
        next + ids_before(cs, k) <= u64::MAX,
    ensures
        attr_ops_from(mount_children_ops(cs, k, parent, svg, next), next as int),
    decreases sizes(cs, k), 1nat,
{
    if 0 < k <= cs.len() {
        assert(sizes(cs, k) == sizes(cs, k - 1) + size(cs[k - 1]));
        lemma_children_attr_from(cs, k - 1, parent, svg, next);
        let start = advance(next, ids_before(cs, k - 1));
        lemma_advance_exact(next, ids_before(cs, k - 1));
        lemma_mount_attr_from(cs[k - 1], parent, None, svg, start);
        lemma_attr_ops_from_weaken(mount_spec(cs[k - 1], parent, None, svg, start).0, start as int, next as int);
        lemma_attr_ops_from_concat(
            mount_children_ops(cs, k - 1, parent, svg, next),
            mount_spec(cs[k - 1], parent, None, svg, start).0,
            next as int,
        );
    } else {
        assert(mount_children_ops(cs, k, parent, svg, next).len() == 0);
    }
}

proof fn lemma_fragment_attr_from(cs: Seq<VNode>, k: int, parent: NodeId, anchor: Option<NodeId>, svg: bool, next: u64)
    requires
        next + ids_before(cs, k) <= u64::MAX,
    ensures
        attr_ops_from(mount_fragment_spec(cs, k, parent, anchor, svg, next).0, next as int),
    decreases sizes(cs, k), 1nat,
{
    if 0 < k <= cs.len() {
        assert(sizes(cs, k) == sizes(cs, k - 1) + size(cs[k - 1]));
        lemma_fragment_attr_from(cs, k - 1, parent, anchor, svg, next);
        let start = advance(next, ids_before(cs, k - 1));
        lemma_advance_exact(next, ids_before(cs, k - 1));
        lemma_mount_attr_from(cs[k - 1], parent, anchor, svg, start);
        lemma_attr_ops_from_weaken(mount_spec(cs[k - 1], parent, anchor, svg, start).0, start as int, next as int);
        lemma_attr_ops_from_concat(
            mount_fragment_spec(cs, k - 1, parent, anchor, svg, next).0,
            mount_spec(cs[k - 1], parent, anchor, svg, start).0,
            next as int,
        );
    } else {
        assert(mount_fragment_spec(cs, k, parent, anchor, svg, next).0.len() == 0);
    }
}

proof fn lemma_set_all_attrs_map(attrs: Seq<(String, String)>, node: NodeId, k: int)
    requires
        0 <= k <= attrs.len(),
    ensures
        apply_attr_ops(Map::empty(), set_all_attrs_ops(attrs, node, k), node) == attr_map(attrs.take(k)),
    decreases k,
{
    if k > 0 {
        lemma_set_all_attrs_map(attrs, node, k - 1);
        let ops = set_all_attrs_ops(attrs, node, k);
        assert(ops.drop_last() =~= set_all_attrs_ops(attrs, node, k - 1));
        assert(ops.last() == DomOp::SetAttribute { node, name: attrs[k - 1].0, value: attrs[k - 1].1 });
        assert(attrs.take(k).drop_last() =~= attrs.take(k - 1));
        assert(attrs.take(k).last() == attrs[k - 1]);
    } else {
        assert(attrs.take(0) =~= Seq::<(String, String)>::empty());
    }
}

/// Mounting an element sets every one of its attributes, whatever the
/// value (the empty value of a boolean attribute included): applied to a
/// node with no attributes, the operations that mount the element leave the
/// new element's node (the one mounting returns) with exactly the
/// element's attributes, later ones winning for a repeated name.
pub proof fn lemma_mount_sets_every_attribute(
    el: VElement,
    parent: NodeId,
    anchor: Option<NodeId>,
    svg: bool,
    next: u64,
)
    requires
        next + mount_ids(VNode::Element(el)) <= u64::MAX,
    ensures
        mount_spec(VNode::Element(el), parent, anchor, svg, next).1 == Some(next),
        apply_attr_ops(Map::empty(), mount_spec(VNode::Element(el), parent, anchor, svg, next).0, next) == attr_map(
            el.attrs@,
        ),
{
    let v = VNode::Element(el);
    let n = el.children@.len() as int;
    assert(sizes(el.children@, n) < size(v));
    let ns = is_svg_tag(el.tag@) || svg;
    let first = advance(next, 1 + el.events@.len());
    lemma_advance_exact(next, 1 + el.events@.len());
    let e = Map::<Seq<char>, Seq<char>>::empty();
    let c0 = seq![DomOp::CreateElement { node: next, tag: el.tag, svg: ns }];
    let a = set_all_attrs_ops(el.attrs@, next, el.attrs@.len() as int);
    let l = add_listeners_ops(el.events@, next, succ(next), el.events@.len() as int);
    let c = mount_children_ops(el.children@, n, next, ns, first);
    let ins = seq![insert_op(parent, next, anchor)];
    assert(mount_spec(v, parent, anchor, svg, next).0 == c0 + a + l + c + ins);
    assert(attr_ops_from(c0, next + 1)) by {
        assert(c0[0] == DomOp::CreateElement { node: next, tag: el.tag, svg: ns });
    }
    lemma_apply_attr_ops_other(e, c0, next, next + 1);
    lemma_set_all_attrs_map(el.attrs@, next, el.attrs@.len() as int);
    assert(el.attrs@.take(el.attrs@.len() as int) =~= el.attrs@);
    let m1 = attr_map(el.attrs@);
    lemma_listeners_attr_from(el.events@, next, succ(next), el.events@.len() as int, next + 1);
    lemma_apply_attr_ops_other(m1, l, next, next + 1);
    lemma_children_attr_from(el.children@, n, next, ns, first);
    lemma_apply_attr_ops_other(m1, c, next, first as int);
    assert(attr_ops_from(ins, next + 1)) by {
        assert(ins[0] == insert_op(parent, next, anchor));
    }
    lemma_apply_attr_ops_other(m1, ins, next, next + 1);
    lemma_apply_concat(e, c0, a, next);
    lemma_apply_concat(e, c0 + a, l, next);
    lemma_apply_concat(e, c0 + a + l, c, next);
    lemma_apply_concat(e, c0 + a + l + c, ins, next);
}

} // verus!
