use vstd::prelude::*;

use super::{
    advance, insert_op, lemma_advance_add, lemma_advance_one, lemma_size_le_sizes, push_insert, size, sizes, succ, DomOp,
    EventHandler, ListenerId, NodeId, Plan, VNode,
};

verus! {

// ---------------------------------------------------------------------------
// Specification of mounting
// ---------------------------------------------------------------------------

/// Elements with this tag live in the SVG namespace, and so do their children.
pub open spec fn is_svg_tag(tag: Seq<char>) -> bool {
    tag == "svg"@
}

/// The number of fresh identifiers that mounting `v` consumes: one per
/// element, text and dynamic node, and one per event listener.
pub open spec fn mount_ids(v: VNode) -> nat
    decreases size(v), 0nat,
{
    match v {
        VNode::Element(el) => {
            proof {
                assert(sizes(el.children@, el.children@.len() as int) < size(v));
            }
            1 + el.events@.len() + ids_before(el.children@, el.children@.len() as int)
        },
        VNode::Text(_, _) => 1,
        VNode::Fragment(cs) => {
            proof {
                assert(sizes(cs@, cs@.len() as int) < size(v));
            }
            ids_before(cs@, cs@.len() as int)
        },
        VNode::Dynamic(_, _) => 1,
        VNode::Empty => 0,
    }
}

/// The identifiers consumed by mounting the first `k` nodes of `cs`.
pub open spec fn ids_before(cs: Seq<VNode>, k: int) -> nat
    decreases sizes(cs, k), 1nat,
{
    if k <= 0 || k > cs.len() {
        0
    } else {
        proof {
            assert(sizes(cs, k) == sizes(cs, k - 1) + size(cs[k - 1]));
        }
        ids_before(cs, k - 1) + mount_ids(cs[k - 1])
    }
}

/// Set each of the first `k` attributes on `node`, in order.
pub open spec fn set_all_attrs_ops(attrs: Seq<(String, String)>, node: NodeId, k: int) -> Seq<DomOp>
    decreases k,
{
    if k <= 0 {
        Seq::empty()
    } else {
        set_all_attrs_ops(attrs, node, k - 1).push(
            DomOp::SetAttribute { node, name: attrs[k - 1].0, value: attrs[k - 1].1 },
        )
    }
}

/// Attach a listener for each of the first `k` events to `node`; the
/// listeners take the identifiers allocated from `first` on.
pub open spec fn add_listeners_ops(
    events: Seq<(String, EventHandler)>,
    node: NodeId,
    first: u64,
    k: int,
) -> Seq<DomOp>
    decreases k,
{
    if k <= 0 {
        Seq::empty()
    } else {
        add_listeners_ops(events, node, first, k - 1).push(
            DomOp::AddListener {
                node,
                event: events[k - 1].0,
                handler: events[k - 1].1.0,
                listener: advance(first, (k - 1) as nat),
            },
        )
    }
}

/// The (event, listener) entries recorded for the listeners of the first `k` events.
pub open spec fn listener_entries(events: Seq<(String, EventHandler)>, first: u64, k: int) -> Seq<
    (String, ListenerId),
>
    decreases k,
{
    if k <= 0 {
        Seq::empty()
    } else {
        listener_entries(events, first, k - 1).push((events[k - 1].0, advance(first, (k - 1) as nat)))
    }
}

/// The operations that mount `v` into `parent` (before `anchor` when given;
/// `svg` when the parent lives in the SVG namespace), with fresh identifiers
/// from `next` on, and the DOM node the mount returns.
pub open spec fn mount_spec(v: VNode, parent: NodeId, anchor: Option<NodeId>, svg: bool, next: u64) -> (
    Seq<DomOp>,
    Option<NodeId>,
)
    decreases size(v), 0nat,
{
    match v {
        VNode::Element(el) => {
            proof {
                assert(sizes(el.children@, el.children@.len() as int) < size(v));
            }
            let ns = is_svg_tag(el.tag@) || svg;
            let id = next;
            let first_child_id = advance(next, 1 + el.events@.len());
            let ops = seq![DomOp::CreateElement { node: id, tag: el.tag, svg: ns }] + set_all_attrs_ops(
                el.attrs@,
                id,
                el.attrs@.len() as int,
            ) + add_listeners_ops(el.events@, id, succ(next), el.events@.len() as int)
                + mount_children_ops(el.children@, el.children@.len() as int, id, ns, first_child_id)
                + seq![insert_op(parent, id, anchor)];
            (ops, Some(id))
        },
        VNode::Text(t, _) => (
            seq![DomOp::CreateText { node: next, text: t }, insert_op(parent, next, anchor)],
            Some(next),
        ),
        VNode::Fragment(cs) => {
            proof {
                assert(sizes(cs@, cs@.len() as int) < size(v));
            }
            mount_fragment_spec(cs@, cs@.len() as int, parent, anchor, svg, next)
        },
        VNode::Dynamic(render, _) => (
            seq![DomOp::MountDynamic { render, parent, anchor, svg, slot: next }],
            Some(next),
        ),
        VNode::Empty => (Seq::empty(), None),
    }
}

/// Mount the first `k` children of an element into it, each appended in turn.
pub open spec fn mount_children_ops(cs: Seq<VNode>, k: int, parent: NodeId, svg: bool, next: u64) -> Seq<
    DomOp,
>
    decreases sizes(cs, k), 1nat,
{
    if k <= 0 || k > cs.len() {
        Seq::empty()
    } else {
        proof {
            assert(sizes(cs, k) == sizes(cs, k - 1) + size(cs[k - 1]));
        }
        mount_children_ops(cs, k - 1, parent, svg, next) + mount_spec(
            cs[k - 1],
            parent,
            None,
            svg,
            advance(next, ids_before(cs, k - 1)),
        ).0
    }
}

/// Mount the first `k` members of a fragment into `parent`, and the first
/// DOM node they return.
pub open spec fn mount_fragment_spec(
    cs: Seq<VNode>,
    k: int,
    parent: NodeId,
    anchor: Option<NodeId>,
    svg: bool,
    next: u64,
) -> (Seq<DomOp>, Option<NodeId>)
    decreases sizes(cs, k), 1nat,
{
    if k <= 0 || k > cs.len() {
        (Seq::empty(), None)
    } else {
        proof {
            assert(sizes(cs, k) == sizes(cs, k - 1) + size(cs[k - 1]));
        }
        let prev = mount_fragment_spec(cs, k - 1, parent, anchor, svg, next);
        let m = mount_spec(cs[k - 1], parent, anchor, svg, advance(next, ids_before(cs, k - 1)));
        (prev.0 + m.0, if prev.1 is Some { prev.1 } else { m.1 })
    }
}

/// `out` is `v` as mounted with fresh identifiers from `next` on: the same
/// node, with every element, text and dynamic node recording its DOM node
/// and every element recording its new listeners.
pub open spec fn mounted(v: VNode, out: VNode, svg: bool, next: u64) -> bool
    decreases size(v), 0nat,
{
    match v {
        VNode::Element(el) => {
            proof {
                assert(sizes(el.children@, el.children@.len() as int) < size(v));
            }
            let ns = is_svg_tag(el.tag@) || svg;
            match out {
                VNode::Element(o) => {
                    &&& o.tag == el.tag
                    &&& o.attrs == el.attrs
                    &&& o.events == el.events
                    &&& o.key == el.key
                    &&& o.dom_ref == Some(next)
                    &&& o.listener_closures@ == el.listener_closures@ + listener_entries(
                        el.events@,
                        succ(next),
                        el.events@.len() as int,
                    )
                    &&& o.children@.len() == el.children@.len()
                    &&& mounted_all(
                        el.children@,
                        o.children@,
                        el.children@.len() as int,
                        ns,
                        advance(next, 1 + el.events@.len()),
                    )
                },
                _ => false,
            }
        },
        VNode::Text(t, _) => out == VNode::Text(t, Some(next)),
        VNode::Fragment(cs) => {
            proof {
                assert(sizes(cs@, cs@.len() as int) < size(v));
            }
            match out {
                VNode::Fragment(o) => o@.len() == cs@.len() && mounted_all(
                    cs@,
                    o@,
                    cs@.len() as int,
                    svg,
                    next,
                ),
                _ => false,
            }
        },
        VNode::Dynamic(render, _) => out == VNode::Dynamic(render, Some(next)),
        VNode::Empty => out == VNode::Empty,
    }
}

/// The first `k` nodes of `outs` are those of `cs` as mounted one after the other.
pub open spec fn mounted_all(cs: Seq<VNode>, outs: Seq<VNode>, k: int, svg: bool, next: u64) -> bool
    decreases sizes(cs, k), 1nat,
{
    if k <= 0 || k > cs.len() {
        true
    } else {
        proof {
            assert(sizes(cs, k) == sizes(cs, k - 1) + size(cs[k - 1]));
        }
        mounted_all(cs, outs, k - 1, svg, next) && mounted(
            cs[k - 1],
            outs[k - 1],
            svg,
            advance(next, ids_before(cs, k - 1)),
        )
    }
}

// ---------------------------------------------------------------------------
// Lemmas about the specification
// ---------------------------------------------------------------------------

/// Whether the first `k` nodes are mounted depends only on the first `k` outputs.
proof fn lemma_mounted_all_frame(
    cs: Seq<VNode>,
    outs: Seq<VNode>,
    outs2: Seq<VNode>,
    k: int,
    svg: bool,
    next: u64,
)
    requires
        forall|j: int| 0 <= j < k ==> outs[j] == outs2[j],
    ensures
        mounted_all(cs, outs, k, svg, next) == mounted_all(cs, outs2, k, svg, next),
    decreases k,
{
    if 0 < k <= cs.len() {
        lemma_mounted_all_frame(cs, outs, outs2, k - 1, svg, next);
    }
}

// ---------------------------------------------------------------------------
// Mounting
// ---------------------------------------------------------------------------

/// Whether `tag` names an SVG element.
pub fn is_svg(tag: &String) -> (b: bool)
    ensures
        b == is_svg_tag(tag@),
{
    let svg_tag = String::from_str("svg");
    *tag == svg_tag
}

/// Mount a VNode tree into the DOM by planning the creation of real DOM nodes.
///
/// * `vnode` — the virtual node tree to mount; its nodes record their DOM nodes
/// * `parent` — the DOM node to attach children to
/// * `anchor` — optional child node to insert before (if None, append)
///
/// Returns the first DOM node created (the "root" of the rendered subtree).
/// For elements this is the element itself; for text nodes it's the text node;
/// for fragments it's the first child; for empty it's None.
pub fn mount_to_dom(vnode: &mut VNode, parent: NodeId, anchor: Option<NodeId>, plan: &mut Plan) -> (root:
    Option<NodeId>)
    ensures
        final(plan).ops@ == old(plan).ops@ + mount_spec(*old(vnode), parent, anchor, false, old(plan).next_id).0,
        root == mount_spec(*old(vnode), parent, anchor, false, old(plan).next_id).1,
        final(plan).next_id == advance(old(plan).next_id, mount_ids(*old(vnode))),
        mounted(*old(vnode), *final(vnode), false, old(plan).next_id),
{
    mount_to_dom_inner(vnode, parent, anchor, false, plan)
}

/// Mount with the namespace context: `svg` when the parent lives in the SVG namespace.
pub fn mount_to_dom_inner(
    vnode: &mut VNode,
    parent: NodeId,
    anchor: Option<NodeId>,
    svg: bool,
    plan: &mut Plan,
) -> (root: Option<NodeId>)
    ensures
        final(plan).ops@ == old(plan).ops@ + mount_spec(*old(vnode), parent, anchor, svg, old(plan).next_id).0,
        root == mount_spec(*old(vnode), parent, anchor, svg, old(plan).next_id).1,
        final(plan).next_id == advance(old(plan).next_id, mount_ids(*old(vnode))),
        mounted(*old(vnode), *final(vnode), svg, old(plan).next_id),
    decreases size(*old(vnode)),
{
    let ghost v0 = *vnode;
    let ghost start = plan.next_id;
    let ghost ops0 = plan.ops@;
    match vnode {
        VNode::Element(el) => {
            let ghost el0 = *el;
            let ghost c0 = el.children@;
            let ghost nev = el.events@.len() as nat;
            proof {
                assert(size(v0) == 1 + nev + sizes(c0, c0.len() as int));
            }
            let ns = is_svg(&el.tag) || svg;
            let id = plan.fresh_id();
            plan.ops.push(DomOp::CreateElement { node: id, tag: el.tag.clone(), svg: ns });
            let ghost ops1 = plan.ops@;
            // Set attributes
            let mut i: usize = 0;
            while i < el.attrs.len()
                invariant
                    i <= el.attrs@.len(),
                    *el == el0,
                    plan.ops@ == ops1 + set_all_attrs_ops(el.attrs@, id, i as int),
                    plan.next_id == succ(start),
                decreases el.attrs@.len() - i,
            {
                plan.ops.push(
                    DomOp::SetAttribute {
                        node: id,
                        name: el.attrs[i].0.clone(),
                        value: el.attrs[i].1.clone(),
                    },
                );
                i = i + 1;
            }
            let ghost ops2 = plan.ops@;
            // Set event listeners, recording each listener for later removal
            let mut j: usize = 0;
            while j < el.events.len()
                invariant
                    j <= el.events@.len(),
                    el.events == el0.events,
                    el.children == el0.children,
                    el.tag == el0.tag,
                    el.attrs == el0.attrs,
                    el.key == el0.key,
                    el.dom_ref == el0.dom_ref,
                    el.events@.len() == nev,
                    plan.ops@ == ops2 + add_listeners_ops(el.events@, id, succ(start), j as int),
                    plan.next_id == advance(succ(start), j as nat),
                    el.listener_closures@ == el0.listener_closures@ + listener_entries(
                        el.events@,
                        succ(start),
                        j as int,
                    ),
                decreases el.events@.len() - j,
            {
                let lid = plan.fresh_id();
                plan.ops.push(
                    DomOp::AddListener {
                        node: id,
                        event: el.events[j].0.clone(),
                        handler: el.events[j].1.0,
                        listener: lid,
                    },
                );
                let name = el.events[j].0.clone();
                el.listener_closures.push((name, lid));
                j = j + 1;
            }
            let ghost ops3 = plan.ops@;
            let ghost first = advance(start, 1 + nev);
            proof {
                lemma_advance_one(start);
                lemma_advance_add(start, 1, nev);
            }
            // Mount children, propagating the namespace
            let mut k: usize = 0;
            while k < el.children.len()
                invariant
                    k <= el.children@.len(),
                    el.children@.len() == c0.len(),
                    forall|m: int| k <= m < c0.len() ==> el.children@[m] == c0[m],
                    el.events == el0.events,
                    el.tag == el0.tag,
                    el.attrs == el0.attrs,
                    el.key == el0.key,
                    el.dom_ref == el0.dom_ref,
                    el.listener_closures@ == el0.listener_closures@ + listener_entries(
                        el.events@,
                        succ(start),
                        nev as int,
                    ),
                    size(*old(vnode)) == size(v0),
                    size(v0) == 1 + nev + sizes(c0, c0.len() as int),
                    plan.ops@ == ops3 + mount_children_ops(c0, k as int, id, ns, first),
                    plan.next_id == advance(first, ids_before(c0, k as int)),
                    mounted_all(c0, el.children@, k as int, ns, first),
                decreases c0.len() - k,
            {
                proof {
                    lemma_size_le_sizes(c0, k as int);
                }
                let ghost before = el.children@;
                let child = &mut el.children[k];
                let _ = mount_to_dom_inner(child, id, None, ns, plan);
                proof {
                    lemma_mounted_all_frame(c0, before, el.children@, k as int, ns, first);
                    lemma_advance_add(first, ids_before(c0, k as int), mount_ids(c0[k as int]));
                    assert(mount_children_ops(c0, k + 1, id, ns, first) == mount_children_ops(
                        c0,
                        k as int,
                        id,
                        ns,
                        first,
                    ) + mount_spec(c0[k as int], id, None, ns, advance(first, ids_before(c0, k as int))).0);
                }
                k = k + 1;
            }
            el.dom_ref = Some(id);
            push_insert(plan, parent, id, anchor);
            proof {
                lemma_advance_add(start, 1 + nev, ids_before(c0, c0.len() as int));
                assert(plan.ops@ =~= ops0 + mount_spec(v0, parent, anchor, svg, start).0);
            }
            Some(id)
        },
        VNode::Text(text, dom) => {
            let id = plan.fresh_id();
            plan.ops.push(DomOp::CreateText { node: id, text: text.clone() });
            push_insert(plan, parent, id, anchor);
            *dom = Some(id);
            proof {
                assert(plan.ops@ =~= ops0 + mount_spec(v0, parent, anchor, svg, start).0);
                lemma_advance_one(start);
            }
            Some(id)
        },
        VNode::Fragment(children) => {
            let ghost c0 = children@;
            proof {
                assert(size(v0) == 1 + sizes(c0, c0.len() as int));
            }
            let mut first_child: Option<NodeId> = None;
            let mut k: usize = 0;
            while k < children.len()
                invariant
                    k <= children@.len(),
                    children@.len() == c0.len(),
                    forall|m: int| k <= m < c0.len() ==> children@[m] == c0[m],
                    size(*old(vnode)) == size(v0),
                    size(v0) == 1 + sizes(c0, c0.len() as int),
                    plan.ops@ == ops0 + mount_fragment_spec(c0, k as int, parent, anchor, svg, start).0,
                    first_child == mount_fragment_spec(c0, k as int, parent, anchor, svg, start).1,
                    plan.next_id == advance(start, ids_before(c0, k as int)),
                    mounted_all(c0, children@, k as int, svg, start),
                decreases c0.len() - k,
            {
                proof {
                    lemma_size_le_sizes(c0, k as int);
                }
                let ghost before = children@;
                let child = &mut children[k];
                let r = mount_to_dom_inner(child, parent, anchor, svg, plan);
                if first_child.is_none() {
                    first_child = r;
                }
                proof {
                    lemma_mounted_all_frame(c0, before, children@, k as int, svg, start);
                    lemma_advance_add(start, ids_before(c0, k as int), mount_ids(c0[k as int]));
                    assert(plan.ops@ =~= ops0 + mount_fragment_spec(c0, k + 1, parent, anchor, svg, start).0);
                }
                k = k + 1;
            }
            first_child
        },
        VNode::Dynamic(render, dom) => {
            let slot = plan.fresh_id();
            plan.ops.push(DomOp::MountDynamic { render: *render, parent, anchor, svg, slot });
            *dom = Some(slot);
            proof {
                assert(plan.ops@ =~= ops0 + mount_spec(v0, parent, anchor, svg, start).0);
                lemma_advance_one(start);
            }
            Some(slot)
        },
        VNode::Empty => {
            proof {
                assert(plan.ops@ =~= ops0 + mount_spec(v0, parent, anchor, svg, start).0);
            }
            None
        },
    }
}

} // verus!
