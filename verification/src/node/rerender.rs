//! Re-rendering an unchanged view: patching a rendered tree into a tree
//! with the same content plans no DOM operation.

use vstd::prelude::*;

use super::children::{
    children_patched, children_spec, has_keyed, keyed_patched, keyed_removals, keyed_source, keyed_steps,
    last_key_index, lemma_in_order_all_stable, lemma_keyed_patched_at, lemma_last_key_index_bound, lemma_pairs_patched_at, mount_range_spec,
    first_dom_from, mounted_range, pairs_spec, reuse_map, stable_children,
};
use super::listeners::{
    events_have_listeners, has_listener, keeps_event, lemma_listeners_cleaned_up, lemma_mounted_listeners_qualify,
    lemma_patched_listeners_qualify, lemma_same_events_no_ops, listeners_for_events, unique_event_names,
    unique_listener_names,
};
use super::mount::{ids_before, is_svg_tag, listener_entries, mounted, mounted_all};
use super::patch::{
    lemma_children_measure, lemma_same_attributes_no_ops, listener_plan, patch_element_spec, patch_spec,
    patched, unique_attr_names,
};
use super::{
    advance, events_view, lemma_size_le_sizes, pairs_view, size, sizes, spec_key, spec_same_type, succ, DomOp, NodeId,
    VNode,
};

verus! {

/// Two nodes have the same content: the same kind; for elements the same
/// tag, attributes, events (names and handlers) and key; the same text; and
/// children of the same content. Dynamic nodes never have the same content:
/// they render anew each time.
pub open spec fn same_content(a: VNode, b: VNode) -> bool
    decreases size(a), 0nat,
{
    match a {
        VNode::Element(x) => {
            proof {
                assert(sizes(x.children@, x.children@.len() as int) < size(a));
            }
            match b {
                VNode::Element(y) => {
                    &&& x.tag@ == y.tag@
                    &&& pairs_view(x.attrs@) == pairs_view(y.attrs@)
                    &&& events_view(x.events@) == events_view(y.events@)
                    &&& spec_key(a) == spec_key(b)
                    &&& x.children@.len() == y.children@.len()
                    &&& same_children(x.children@, y.children@, x.children@.len() as int)
                },
                _ => false,
            }
        },
        VNode::Text(s, _) => match b {
            VNode::Text(t, _) => s@ == t@,
            _ => false,
        },
        VNode::Fragment(xs) => {
            proof {
                assert(sizes(xs@, xs@.len() as int) < size(a));
            }
            match b {
                VNode::Fragment(ys) => xs@.len() == ys@.len() && same_children(xs@, ys@, xs@.len() as int),
                _ => false,
            }
        },
        VNode::Dynamic(_, _) => false,
        VNode::Empty => b is Empty,
    }
}

/// The first `k` children have the same content, pairwise.
pub open spec fn same_children(xs: Seq<VNode>, ys: Seq<VNode>, k: int) -> bool
    decreases sizes(xs, k), 1nat,
{
    if k <= 0 || k > xs.len() || k > ys.len() {
        true
    } else {
        proof {
            assert(sizes(xs, k) == sizes(xs, k - 1) + size(xs[k - 1]));
        }
        same_children(xs, ys, k - 1) && same_content(xs[k - 1], ys[k - 1])
    }
}

/// The children fit in memory, and either no child carries a key, or every
/// child carries one and no two carry the same.
pub open spec fn keys_distinct(cs: Seq<VNode>) -> bool {
    &&& cs.len() <= usize::MAX
    &&& !has_keyed(cs) || ((forall|i: int| 0 <= i < cs.len() ==> #[trigger] spec_key(cs[i]) is Some) && forall|
        i: int,
        j: int,
    |
        0 <= i < j < cs.len() ==> #[trigger] spec_key(cs[i]) != #[trigger] spec_key(cs[j]))
}

/// The tree as mounting and patching leave it: every element and text
/// records its DOM node; every element has attributes and events with
/// distinct names and exactly one stored listener for each event; keyed
/// children have distinct keys; and there is no dynamic node.
pub open spec fn rendered(v: VNode) -> bool
    decreases size(v), 0nat,
{
    match v {
        VNode::Element(el) => {
            proof {
                assert(sizes(el.children@, el.children@.len() as int) < size(v));
            }
            &&& el.dom_ref is Some
            &&& unique_attr_names(el.attrs@)
            &&& unique_event_names(el.events@)
            &&& unique_listener_names(el.listener_closures@)
            &&& events_have_listeners(el.listener_closures@, el.events@)
            &&& listeners_for_events(el.listener_closures@, el.events@)
            &&& keys_distinct(el.children@)
            &&& all_rendered(el.children@, el.children@.len() as int)
        },
        VNode::Text(_, d) => d is Some,
        VNode::Fragment(cs) => {
            proof {
                assert(sizes(cs@, cs@.len() as int) < size(v));
            }
            keys_distinct(cs@) && all_rendered(cs@, cs@.len() as int)
        },
        VNode::Dynamic(_, _) => false,
        VNode::Empty => true,
    }
}

/// The first `k` nodes are rendered.
pub open spec fn all_rendered(cs: Seq<VNode>, k: int) -> bool
    decreases sizes(cs, k), 1nat,
{
    if k <= 0 || k > cs.len() {
        true
    } else {
        proof {
            assert(sizes(cs, k) == sizes(cs, k - 1) + size(cs[k - 1]));
        }
        all_rendered(cs, k - 1) && rendered(cs[k - 1])
    }
}

proof fn lemma_same_children_at(xs: Seq<VNode>, ys: Seq<VNode>, k: int, i: int)
    requires
        same_children(xs, ys, k),
        0 <= i < k <= xs.len(),
        k <= ys.len(),
    ensures
        same_content(xs[i], ys[i]),
    decreases k,
{
    if i < k - 1 {
        lemma_same_children_at(xs, ys, k - 1, i);
    }
}

proof fn lemma_all_rendered_at(cs: Seq<VNode>, k: int, i: int)
    requires
        all_rendered(cs, k),
        0 <= i < k <= cs.len(),
    ensures
        rendered(cs[i]),
    decreases k,
{
    if i < k - 1 {
        lemma_all_rendered_at(cs, k - 1, i);
    }
}

proof fn lemma_key_found(cs: Seq<VNode>, key: Seq<char>, k: int, i: int)
    requires
        0 <= i < k <= cs.len(),
        spec_key(cs[i]) == Some(key),
    ensures
        last_key_index(cs, key, k) is Some,
    decreases k,
{
    if spec_key(cs[k - 1]) != Some(key) {
        lemma_key_found(cs, key, k - 1, i);
    }
}

proof fn lemma_key_unique(cs: Seq<VNode>, k: int, i: int)
    requires
        keys_distinct(cs),
        has_keyed(cs),
        0 <= i < k <= cs.len(),
    ensures
        last_key_index(cs, spec_key(cs[i])->0, k) == Some(i),
    decreases k,
{
    assert(spec_key(cs[i]) is Some);
    if i < k - 1 {
        assert(spec_key(cs[i]) != spec_key(cs[k - 1]));
        lemma_key_unique(cs, k - 1, i);
    }
}

proof fn lemma_no_keyed_removals(oc: Seq<VNode>, nc: Seq<VNode>, parent: NodeId, k: int)
    requires
        oc.len() == nc.len(),
        same_children(oc, nc, oc.len() as int),
        keys_distinct(oc),
        has_keyed(oc),
        0 <= k <= oc.len(),
    ensures
        keyed_removals(oc, reuse_map(oc, nc), parent, k) == Seq::<DomOp>::empty(),
    decreases k,
{
    if k > 0 {
        lemma_no_keyed_removals(oc, nc, parent, k - 1);
        let i = k - 1;
        lemma_same_children_at(oc, nc, oc.len() as int, i);
        assert(spec_key(oc[i]) is Some);
        assert(spec_key(nc[i]) == spec_key(oc[i]));
        lemma_key_found(nc, spec_key(oc[i])->0, nc.len() as int, i);
        assert(reuse_map(oc, nc)[i] is Some);
        assert(keyed_removals(oc, reuse_map(oc, nc), parent, k - 1) + Seq::<DomOp>::empty() =~= Seq::<DomOp>::empty());
    }
}

proof fn lemma_unchanged_pairs(oc: Seq<VNode>, nc: Seq<VNode>, parent: NodeId, next: u64, k: int)
    requires
        oc.len() == nc.len(),
        same_children(oc, nc, oc.len() as int),
        all_rendered(oc, oc.len() as int),
        0 <= k <= oc.len(),
    ensures
        pairs_spec(oc, nc, parent, next, k) == (Seq::<DomOp>::empty(), next),
    decreases sizes(oc, oc.len() as int) + sizes(nc, nc.len() as int) + 1, 0int, k,
{
    if k > 0 {
        lemma_unchanged_pairs(oc, nc, parent, next, k - 1);
        lemma_same_children_at(oc, nc, oc.len() as int, k - 1);
        lemma_all_rendered_at(oc, oc.len() as int, k - 1);
        lemma_size_le_sizes(oc, k - 1);
        lemma_size_le_sizes(nc, k - 1);
        lemma_unchanged_tree_plans_nothing(oc[k - 1], nc[k - 1], parent, first_dom_from(oc, k), next);
        assert(Seq::<DomOp>::empty() + Seq::<DomOp>::empty() =~= Seq::<DomOp>::empty());
    }
}

proof fn lemma_unchanged_keyed_steps(
    oc: Seq<VNode>,
    nc: Seq<VNode>,
    parent: NodeId,
    lis: Seq<usize>,
    next: u64,
    k: int,
)
    requires
        oc.len() == nc.len(),
        same_children(oc, nc, oc.len() as int),
        all_rendered(oc, oc.len() as int),
        keys_distinct(oc),
        has_keyed(oc),
        forall|j: int| 0 <= j < oc.len() ==> #[trigger] lis.contains(j as usize),
        0 <= k <= nc.len(),
    ensures
        keyed_steps(oc, nc, parent, lis, next, k).0 == Seq::<DomOp>::empty(),
        keyed_steps(oc, nc, parent, lis, next, k).1 == next,
    decreases sizes(oc, oc.len() as int) + sizes(nc, nc.len() as int) + 1, 0int, nc.len() - k,
{
    if k < nc.len() {
        lemma_unchanged_keyed_steps(oc, nc, parent, lis, next, k + 1);
        let j = k;
        let prev = keyed_steps(oc, nc, parent, lis, next, k + 1);
        lemma_same_children_at(oc, nc, oc.len() as int, j);
        lemma_all_rendered_at(oc, oc.len() as int, j);
        assert(spec_key(oc[j]) is Some);
        assert(spec_key(nc[j]) == spec_key(oc[j]));
        lemma_key_unique(oc, oc.len() as int, j);
        lemma_size_le_sizes(oc, j);
        lemma_size_le_sizes(nc, j);
        lemma_unchanged_tree_plans_nothing(oc[j], nc[j], parent, prev.2, next);
        assert(lis.contains(j as usize));
        assert(Seq::<DomOp>::empty() + Seq::<DomOp>::empty() + Seq::<DomOp>::empty() =~= Seq::<DomOp>::empty());
        assert(Seq::<DomOp>::empty() + Seq::<DomOp>::empty() =~= Seq::<DomOp>::empty());
    }
}

proof fn lemma_same_keys_lookup(oc: Seq<VNode>, nc: Seq<VNode>, key: Seq<char>, k: int)
    requires
        oc.len() == nc.len(),
        forall|x: int| 0 <= x < oc.len() ==> #[trigger] spec_key(oc[x]) == spec_key(nc[x]),
    ensures
        last_key_index(oc, key, k) == last_key_index(nc, key, k),
    decreases k,
{
    if 0 < k <= oc.len() {
        assert(spec_key(oc[k - 1]) == spec_key(nc[k - 1]));
        lemma_same_keys_lookup(oc, nc, key, k - 1);
    }
}

/// With the same keys in the same order, every old child is stable.
proof fn lemma_unchanged_all_stable(oc: Seq<VNode>, nc: Seq<VNode>)
    requires
        oc.len() == nc.len(),
        same_children(oc, nc, oc.len() as int),
        keys_distinct(oc),
        has_keyed(oc),
    ensures
        forall|j: int| 0 <= j < oc.len() ==> #[trigger] stable_children(oc, nc).contains(j as usize),
{
    let r = reuse_map(oc, nc);
    assert forall|x: int| 0 <= x < oc.len() implies #[trigger] spec_key(oc[x]) == spec_key(nc[x]) by {
        lemma_same_children_at(oc, nc, oc.len() as int, x);
    }
    assert forall|m: int| 0 <= m < r.len() implies #[trigger] r[m] == Some(m as usize) by {
        assert(spec_key(oc[m]) is Some);
        lemma_key_unique(oc, oc.len() as int, m);
        lemma_same_keys_lookup(oc, nc, spec_key(oc[m])->0, nc.len() as int);
    }
    assert forall|j: int| 0 <= j < oc.len() implies #[trigger] stable_children(oc, nc).contains(j as usize) by {
        lemma_in_order_all_stable(r, j);
    }
}

/// Children with the same content as rendered children plan nothing.
proof fn lemma_unchanged_children(oc: Seq<VNode>, nc: Seq<VNode>, parent: NodeId, next: u64)
    requires
        oc.len() == nc.len(),
        same_children(oc, nc, oc.len() as int),
        all_rendered(oc, oc.len() as int),
        keys_distinct(oc),
    ensures
        children_spec(oc, nc, parent, next) == (Seq::<DomOp>::empty(), next),
    decreases sizes(oc, oc.len() as int) + sizes(nc, nc.len() as int) + 1, 1int, 0int,
{
    if has_keyed(oc) && has_keyed(nc) {
        lemma_unchanged_all_stable(oc, nc);
        lemma_unchanged_keyed_steps(oc, nc, parent, stable_children(oc, nc), next, 0);
        lemma_no_keyed_removals(oc, nc, parent, oc.len() as int);
        assert(Seq::<DomOp>::empty() + Seq::<DomOp>::empty() =~= Seq::<DomOp>::empty());
    } else {
        lemma_unchanged_pairs(oc, nc, parent, next, oc.len() as int);
        assert(Seq::<DomOp>::empty() + Seq::<DomOp>::empty() =~= Seq::<DomOp>::empty());
    }
}

/// Re-rendering an unchanged view touches nothing: patching a rendered tree
/// into a tree with the same content plans no DOM operation and allocates no
/// identifier.
pub proof fn lemma_unchanged_tree_plans_nothing(
    old: VNode,
    new: VNode,
    parent: NodeId,
    anchor: Option<NodeId>,
    next: u64,
)
    requires
        rendered(old),
        same_content(old, new),
    ensures
        patch_spec(old, new, parent, anchor, next) == (Seq::<DomOp>::empty(), next),
    decreases size(old) + size(new), 2int, 0int,
{
    match old {
        VNode::Element(o) => match new {
            VNode::Element(n) => {
                let d = o.dom_ref->0;
                lemma_same_attributes_no_ops(o.attrs@, n.attrs@, d);
                lemma_same_events_no_ops(o, n, d, next);
                lemma_children_measure(o, n);
                lemma_unchanged_children(o.children@, n.children@, d, next);
                assert(patch_element_spec(o, n, parent, anchor, next).0 =~= Seq::<DomOp>::empty());
            },
            _ => {},
        },
        VNode::Fragment(oc) => match new {
            VNode::Fragment(nc) => {
                assert(sizes(oc@, oc@.len() as int) + sizes(nc@, nc@.len() as int) + 1 < size(old) + size(new));
                lemma_unchanged_children(oc@, nc@, parent, next);
            },
            _ => {},
        },
        _ => {},
    }
}

// ---------------------------------------------------------------------------
// Mounting renders
// ---------------------------------------------------------------------------

/// A freshly built tree that mounting turns into a rendered one: elements
/// have attributes and events with distinct names and no stored listeners,
/// keyed children have distinct keys, and there is no dynamic node.
pub open spec fn renderable(v: VNode) -> bool
    decreases size(v), 0nat,
{
    match v {
        VNode::Element(el) => {
            proof {
                assert(sizes(el.children@, el.children@.len() as int) < size(v));
            }
            &&& unique_attr_names(el.attrs@)
            &&& unique_event_names(el.events@)
            &&& el.listener_closures@.len() == 0
            &&& keys_distinct(el.children@)
            &&& all_renderable(el.children@, el.children@.len() as int)
        },
        VNode::Text(_, _) => true,
        VNode::Fragment(cs) => {
            proof {
                assert(sizes(cs@, cs@.len() as int) < size(v));
            }
            keys_distinct(cs@) && all_renderable(cs@, cs@.len() as int)
        },
        VNode::Dynamic(_, _) => false,
        VNode::Empty => true,
    }
}

/// The first `k` nodes are renderable.
pub open spec fn all_renderable(cs: Seq<VNode>, k: int) -> bool
    decreases sizes(cs, k), 1nat,
{
    if k <= 0 || k > cs.len() {
        true
    } else {
        proof {
            assert(sizes(cs, k) == sizes(cs, k - 1) + size(cs[k - 1]));
        }
        all_renderable(cs, k - 1) && renderable(cs[k - 1])
    }
}

proof fn lemma_all_renderable_at(cs: Seq<VNode>, k: int, i: int)
    requires
        all_renderable(cs, k),
        0 <= i < k <= cs.len(),
    ensures
        renderable(cs[i]),
    decreases k,
{
    if i < k - 1 {
        lemma_all_renderable_at(cs, k - 1, i);
    }
}

/// Children of the same content carry the same keys, so distinct keys carry over.
proof fn lemma_keys_distinct_carry(xs: Seq<VNode>, ys: Seq<VNode>)
    requires
        xs.len() == ys.len(),
        same_children(xs, ys, xs.len() as int),
        keys_distinct(ys),
    ensures
        keys_distinct(xs),
{
    assert forall|i: int| 0 <= i < xs.len() implies #[trigger] spec_key(xs[i]) == spec_key(ys[i]) by {
        lemma_same_children_at(xs, ys, xs.len() as int, i);
    }
    if has_keyed(xs) {
        let i = choose|i: int| 0 <= i < xs.len() && #[trigger] spec_key(xs[i]) is Some;
        assert(spec_key(ys[i]) is Some);
        assert(has_keyed(ys));
        assert forall|a: int, b: int| 0 <= a < b < xs.len() implies #[trigger] spec_key(xs[a]) != #[trigger] spec_key(
            xs[b],
        ) by {
            assert(spec_key(xs[a]) == spec_key(ys[a]));
            assert(spec_key(xs[b]) == spec_key(ys[b]));
        }
        assert forall|a: int| 0 <= a < xs.len() implies #[trigger] spec_key(xs[a]) is Some by {
            assert(spec_key(xs[a]) == spec_key(ys[a]));
        }
    }
}

proof fn lemma_mounted_rendered(v: VNode, out: VNode, svg: bool, next: u64)
    requires
        renderable(v),
        mounted(v, out, svg, next),
    ensures
        rendered(out),
        same_content(out, v),
    decreases size(v), 0nat,
{
    match v {
        VNode::Element(el) => match out {
            VNode::Element(o) => {
                let n = el.children@.len() as int;
                assert(sizes(el.children@, n) < size(v));
                let ns = is_svg_tag(el.tag@) || svg;
                lemma_mounted_all_rendered(el.children@, o.children@, n, ns, advance(next, 1 + el.events@.len()));
                lemma_mounted_listeners_qualify(el.events@, succ(next));
                assert(o.listener_closures@ =~= listener_entries(el.events@, succ(next), el.events@.len() as int));
                lemma_keys_distinct_carry(o.children@, el.children@);
            },
            _ => {},
        },
        VNode::Fragment(cs) => match out {
            VNode::Fragment(o) => {
                let n = cs@.len() as int;
                assert(sizes(cs@, n) < size(v));
                lemma_mounted_all_rendered(cs@, o@, n, svg, next);
                lemma_keys_distinct_carry(o@, cs@);
            },
            _ => {},
        },
        _ => {},
    }
}

proof fn lemma_mounted_all_rendered(cs: Seq<VNode>, outs: Seq<VNode>, k: int, svg: bool, next: u64)
    requires
        0 <= k <= cs.len(),
        k <= outs.len(),
        all_renderable(cs, k),
        mounted_all(cs, outs, k, svg, next),
    ensures
        all_rendered(outs, k),
        same_children(outs, cs, k),
    decreases sizes(cs, k), 1nat,
{
    if k > 0 {
        assert(sizes(cs, k) == sizes(cs, k - 1) + size(cs[k - 1]));
        lemma_mounted_all_rendered(cs, outs, k - 1, svg, next);
        lemma_mounted_rendered(cs[k - 1], outs[k - 1], svg, advance(next, ids_before(cs, k - 1)));
    }
}

proof fn lemma_same_content_trans(a: VNode, b: VNode, c: VNode)
    requires
        same_content(a, b),
        same_content(b, c),
    ensures
        same_content(a, c),
    decreases size(a), 0nat,
{
    match a {
        VNode::Element(x) => match b {
            VNode::Element(y) => match c {
                VNode::Element(z) => {
                    assert(sizes(x.children@, x.children@.len() as int) < size(a));
                    lemma_same_children_trans(x.children@, y.children@, z.children@, x.children@.len() as int);
                },
                _ => {},
            },
            _ => {},
        },
        VNode::Fragment(xs) => match b {
            VNode::Fragment(ys) => match c {
                VNode::Fragment(zs) => {
                    assert(sizes(xs@, xs@.len() as int) < size(a));
                    lemma_same_children_trans(xs@, ys@, zs@, xs@.len() as int);
                },
                _ => {},
            },
            _ => {},
        },
        _ => {},
    }
}

proof fn lemma_same_children_trans(xs: Seq<VNode>, ys: Seq<VNode>, zs: Seq<VNode>, k: int)
    requires
        0 <= k <= xs.len(),
        xs.len() == ys.len(),
        ys.len() == zs.len(),
        same_children(xs, ys, k),
        same_children(ys, zs, k),
    ensures
        same_children(xs, zs, k),
    decreases sizes(xs, k), 1nat,
{
    if k > 0 {
        assert(sizes(xs, k) == sizes(xs, k - 1) + size(xs[k - 1]));
        lemma_same_children_trans(xs, ys, zs, k - 1);
        lemma_same_content_trans(xs[k - 1], ys[k - 1], zs[k - 1]);
    }
}

/// Mounting a view and re-rendering it unchanged touches nothing: when a
/// renderable tree `v` is mounted as `out`, patching `out` into any tree with
/// the same content as `v` plans no DOM operation and allocates no identifier.
pub proof fn lemma_mount_then_unchanged_update(
    v: VNode,
    out: VNode,
    svg: bool,
    next: u64,
    w: VNode,
    parent: NodeId,
    anchor: Option<NodeId>,
    later: u64,
)
    requires
        renderable(v),
        mounted(v, out, svg, next),
        same_content(v, w),
    ensures
        patch_spec(out, w, parent, anchor, later) == (Seq::<DomOp>::empty(), later),
{
    lemma_mounted_rendered(v, out, svg, next);
    lemma_same_content_trans(out, v, w);
    lemma_unchanged_tree_plans_nothing(out, w, parent, anchor, later);
}

// ---------------------------------------------------------------------------
// Patching renders
// ---------------------------------------------------------------------------

proof fn lemma_pointwise_rendered(outs: Seq<VNode>, nc: Seq<VNode>, k: int)
    requires
        0 <= k <= outs.len(),
        outs.len() == nc.len(),
        forall|i: int| 0 <= i < k ==> #[trigger] rendered(outs[i]) && same_content(outs[i], nc[i]),
    ensures
        all_rendered(outs, k),
        same_children(outs, nc, k),
    decreases k,
{
    if k > 0 {
        lemma_pointwise_rendered(outs, nc, k - 1);
        assert(rendered(outs[k - 1]));
    }
}

proof fn lemma_mounted_range_at(nc: Seq<VNode>, outs: Seq<VNode>, from: int, k: int, parent: NodeId, next: u64, i: int)
    requires
        mounted_range(nc, outs, from, k, parent, next),
        from <= i < k,
    ensures
        mounted(nc[i], outs[i], false, mount_range_spec(nc, from, i, parent, next).1),
    decreases k - from,
{
    if i < k - 1 {
        lemma_mounted_range_at(nc, outs, from, k - 1, parent, next, i);
    }
}

proof fn lemma_children_patched_rendered(oc: Seq<VNode>, nc: Seq<VNode>, outs: Seq<VNode>, parent: NodeId, next: u64)
    requires
        all_rendered(oc, oc.len() as int),
        all_renderable(nc, nc.len() as int),
        outs.len() == nc.len(),
        children_patched(oc, nc, outs, parent, next),
    ensures
        all_rendered(outs, outs.len() as int),
        same_children(outs, nc, nc.len() as int),
    decreases sizes(oc, oc.len() as int) + sizes(nc, nc.len() as int) + 1, 1int, 0int,
{
    if has_keyed(oc) && has_keyed(nc) {
        let lis = stable_children(oc, nc);
        assert forall|j: int| 0 <= j < nc.len() implies #[trigger] rendered(outs[j]) && same_content(outs[j], nc[j]) by {
            lemma_all_renderable_at(nc, nc.len() as int, j);
            lemma_size_le_sizes(nc, j);
            let prev = keyed_steps(oc, nc, parent, lis, next, j + 1);
            let start = prev.1;
            match keyed_source(oc, nc, j) {
                Some(oi) => {
                    lemma_keyed_patched_at(oc, nc, outs, parent, lis, next, 0, j);
                    lemma_last_key_index_bound(oc, spec_key(nc[j])->0, oc.len() as int);
                    lemma_all_rendered_at(oc, oc.len() as int, oi);
                    lemma_size_le_sizes(oc, oi);
                    lemma_patched_rendered(oc[oi], nc[j], outs[j], parent, prev.2, start);
                },
                None => {
                    lemma_keyed_mounted_at(oc, nc, outs, parent, lis, next, 0, j);
                    lemma_mounted_rendered(nc[j], outs[j], false, start);
                },
            }
        }
    } else {
        let common = if oc.len() < nc.len() { oc.len() as int } else { nc.len() as int };
        assert forall|j: int| 0 <= j < nc.len() implies #[trigger] rendered(outs[j]) && same_content(outs[j], nc[j]) by {
            lemma_all_renderable_at(nc, nc.len() as int, j);
            lemma_size_le_sizes(nc, j);
            if j < common {
                lemma_pairs_patched_at(oc, nc, outs, parent, next, common, j);
                lemma_all_rendered_at(oc, oc.len() as int, j);
                lemma_size_le_sizes(oc, j);
                lemma_patched_rendered(
                    oc[j],
                    nc[j],
                    outs[j],
                    parent,
                    first_dom_from(oc, j + 1),
                    pairs_spec(oc, nc, parent, next, j).1,
                );
            } else {
                let a = pairs_spec(oc, nc, parent, next, common);
                lemma_mounted_range_at(nc, outs, oc.len() as int, nc.len() as int, parent, a.1, j);
                lemma_mounted_rendered(nc[j], outs[j], false, mount_range_spec(nc, oc.len() as int, j, parent, a.1).1);
            }
        }
    }
    lemma_pointwise_rendered(outs, nc, nc.len() as int);
}

proof fn lemma_keyed_mounted_at(
    oc: Seq<VNode>,
    nc: Seq<VNode>,
    outs: Seq<VNode>,
    parent: NodeId,
    lis: Seq<usize>,
    next: u64,
    k: int,
    j: int,
)
    requires
        keyed_patched(oc, nc, outs, parent, lis, next, k),
        0 <= k <= j < nc.len(),
        keyed_source(oc, nc, j) is None,
    ensures
        mounted(nc[j], outs[j], false, keyed_steps(oc, nc, parent, lis, next, j + 1).1),
    decreases j - k,
{
    if k < j {
        lemma_keyed_mounted_at(oc, nc, outs, parent, lis, next, k + 1, j);
    }
}

proof fn lemma_patched_rendered(old: VNode, new: VNode, out: VNode, parent: NodeId, anchor: Option<NodeId>, next: u64)
    requires
        rendered(old),
        renderable(new),
        patched(old, new, out, parent, anchor, next),
    ensures
        rendered(out),
        same_content(out, new),
    decreases size(old) + size(new), 2int, 0int,
{
    if old is Empty && new is Empty {
    } else if old is Empty {
        lemma_mounted_rendered(new, out, false, next);
    } else if new is Empty {
    } else if !spec_same_type(old, new) {
        lemma_mounted_rendered(new, out, false, next);
    } else {
        match old {
            VNode::Element(o) => match new {
                VNode::Element(n) => match out {
                    VNode::Element(x) => {
                        let d = o.dom_ref->0;
                        let lp = listener_plan(o, n, d, next);
                        lemma_patched_listeners_qualify(o, n, d, next);
                        lemma_listeners_cleaned_up(o, n, d, next);
                        assert forall|k: int| 0 <= k < n.events@.len() implies has_listener(
                            x.listener_closures@,
                            #[trigger] n.events@[k].0@,
                        ) by {
                            assert(keeps_event(lp.0, n.events@[k].0@));
                        }
                        lemma_children_measure(o, n);
                        lemma_children_patched_rendered(o.children@, n.children@, x.children@, d, lp.2);
                        lemma_keys_distinct_carry(x.children@, n.children@);
                    },
                    _ => {},
                },
                _ => {},
            },
            VNode::Fragment(oc) => match new {
                VNode::Fragment(nc) => match out {
                    VNode::Fragment(xs) => {
                        assert(sizes(oc@, oc@.len() as int) + sizes(nc@, nc@.len() as int) + 1 < size(old) + size(new));
                        lemma_children_patched_rendered(oc@, nc@, xs@, parent, next);
                        lemma_keys_distinct_carry(xs@, nc@);
                    },
                    _ => {},
                },
                _ => {},
            },
            _ => {},
        }
    }
}

/// Patching renders: patching a rendered tree into a renderable one leaves
/// a rendered tree with the new tree's content, so re-rendering it unchanged
/// afterwards plans nothing either.
pub proof fn lemma_update_then_unchanged_update(
    old: VNode,
    new: VNode,
    out: VNode,
    parent: NodeId,
    anchor: Option<NodeId>,
    next: u64,
    w: VNode,
    later: u64,
)
    requires
        rendered(old),
        renderable(new),
        patched(old, new, out, parent, anchor, next),
        same_content(new, w),
    ensures
        rendered(out),
        patch_spec(out, w, parent, anchor, later) == (Seq::<DomOp>::empty(), later),
{
    lemma_patched_rendered(old, new, out, parent, anchor, next);
    lemma_same_content_trans(out, new, w);
    lemma_unchanged_tree_plans_nothing(out, w, parent, anchor, later);
}

} // verus!
