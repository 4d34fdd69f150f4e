use vstd::prelude::*;

use super::children::{children_patched, children_spec};
use super::mount::{is_svg_tag, mount_ids, mount_spec, mounted};
use super::{
    advance, insert_op, push_insert, dom_nodes, dom_nodes_all, lemma_size_le_sizes, pairs_view, size, sizes, spec_dom_node, spec_same_type, succ, DomOp, EventHandler, HandlerId, ListenerId,
    NodeId, Plan, VElement, VNode,
};

verus! {

// ---------------------------------------------------------------------------
// Attributes
// ---------------------------------------------------------------------------

/// The value of the last attribute named `name`, if any (later entries win).
pub open spec fn attr_lookup(attrs: Seq<(String, String)>, name: Seq<char>) -> Option<Seq<char>>
    decreases attrs.len(),
{
    if attrs.len() == 0 {
        None
    } else if attrs.last().0@ == name {
        Some(attrs.last().1@)
    } else {
        attr_lookup(attrs.drop_last(), name)
    }
}

/// For each of the first `k` new attributes whose value differs from the old
/// value of that name (or that is new), set it.
pub open spec fn set_changed_attrs_ops(
    old: Seq<(String, String)>,
    new: Seq<(String, String)>,
    node: NodeId,
    k: int,
) -> Seq<DomOp>
    decreases k,
{
    if k <= 0 {
        Seq::empty()
    } else {
        let rest = set_changed_attrs_ops(old, new, node, k - 1);
        if attr_lookup(old, new[k - 1].0@) == Some(new[k - 1].1@) {
            rest
        } else {
            rest.push(DomOp::SetAttribute { node, name: new[k - 1].0, value: new[k - 1].1 })
        }
    }
}

/// For each of the first `k` old attributes whose name the new attributes
/// lack, remove it.
pub open spec fn remove_dropped_attrs_ops(
    old: Seq<(String, String)>,
    new: Seq<(String, String)>,
    node: NodeId,
    k: int,
) -> Seq<DomOp>
    decreases k,
{
    if k <= 0 {
        Seq::empty()
    } else {
        let rest = remove_dropped_attrs_ops(old, new, node, k - 1);
        if attr_lookup(new, old[k - 1].0@) is None {
            rest.push(DomOp::RemoveAttribute { node, name: old[k - 1].0 })
        } else {
            rest
        }
    }
}

/// The attribute changes that turn `old` into `new` on `node`.
pub open spec fn attribute_ops(old: Seq<(String, String)>, new: Seq<(String, String)>, node: NodeId) -> Seq<
    DomOp,
> {
    set_changed_attrs_ops(old, new, node, new.len() as int) + remove_dropped_attrs_ops(
        old,
        new,
        node,
        old.len() as int,
    )
}

/// Look up the value of the last attribute named `name`.
fn find_attr<'a>(attrs: &'a Vec<(String, String)>, name: &String) -> (r: Option<&'a String>)
    ensures
        r is Some == attr_lookup(attrs@, name@) is Some,
        r matches Some(v) ==> attr_lookup(attrs@, name@) == Some(v@),
{
    let mut i = attrs.len();
    assert(attrs@.take(i as int) =~= attrs@);
    while i > 0
        invariant
            i <= attrs@.len(),
            attr_lookup(attrs@, name@) == attr_lookup(attrs@.take(i as int), name@),
        decreases i,
    {
        let ghost t = attrs@.take(i as int);
        assert(t.drop_last() == attrs@.take(i - 1));
        if attrs[i - 1].0 == *name {
            return Some(&attrs[i - 1].1);
        }
        i = i - 1;
    }
    None
}

/// Compare old and new attributes, planning only the changes on `node`.
pub fn patch_attributes(old_el: &VElement, new_el: &VElement, node: NodeId, plan: &mut Plan)
    ensures
        final(plan).ops@ == old(plan).ops@ + attribute_ops(old_el.attrs@, new_el.attrs@, node),
        final(plan).next_id == old(plan).next_id,
{
    let ghost ops0 = plan.ops@;
    // Attributes in new but not in old, or with different values → set
    let mut i: usize = 0;
    while i < new_el.attrs.len()
        invariant
            i <= new_el.attrs@.len(),
            plan.ops@ == ops0 + set_changed_attrs_ops(old_el.attrs@, new_el.attrs@, node, i as int),
            plan.next_id == old(plan).next_id,
        decreases new_el.attrs@.len() - i,
    {
        let name = &new_el.attrs[i].0;
        let value = &new_el.attrs[i].1;
        let same = match find_attr(&old_el.attrs, name) {
            Some(old_value) => *old_value == *value,
            None => false,
        };
        if !same {
            plan.ops.push(DomOp::SetAttribute { node, name: name.clone(), value: value.clone() });
        }
        i = i + 1;
    }
    let ghost ops1 = plan.ops@;
    // Attributes in old but not in new → remove
    let mut j: usize = 0;
    while j < old_el.attrs.len()
        invariant
            j <= old_el.attrs@.len(),
            plan.ops@ == ops1 + remove_dropped_attrs_ops(old_el.attrs@, new_el.attrs@, node, j as int),
            plan.next_id == old(plan).next_id,
        decreases old_el.attrs@.len() - j,
    {
        let name = &old_el.attrs[j].0;
        if find_attr(&new_el.attrs, name).is_none() {
            plan.ops.push(DomOp::RemoveAttribute { node, name: name.clone() });
        }
        j = j + 1;
    }
    proof {
        assert(plan.ops@ =~= ops0 + attribute_ops(old_el.attrs@, new_el.attrs@, node));
    }
}

// ---------------------------------------------------------------------------
// Event listeners
// ---------------------------------------------------------------------------

/// The handler of the last event named `name`, if any (later entries win).
pub open spec fn handler_lookup(events: Seq<(String, EventHandler)>, name: Seq<char>) -> Option<HandlerId>
    decreases events.len(),
{
    if events.len() == 0 {
        None
    } else if events.last().0@ == name {
        Some(events.last().1.0)
    } else {
        handler_lookup(events.drop_last(), name)
    }
}

/// The position of the first stored listener for `name`, from position `i` on.
pub open spec fn closure_pos(cl: Seq<(String, ListenerId)>, name: Seq<char>, i: int) -> Option<int>
    decreases cl.len() - i,
{
    if i < 0 || i >= cl.len() {
        None
    } else if cl[i].0@ == name {
        Some(i)
    } else {
        closure_pos(cl, name, i + 1)
    }
}

/// The state of listener patching: the old listeners not yet taken, the
/// listeners the new element keeps, the operations, and the next identifier.
pub type ListenerState = (Seq<(String, ListenerId)>, Seq<(String, ListenerId)>, Seq<DomOp>, u64);

/// Listener patching after the first `k` old events: an event the new element
/// lacks loses its listener; an event whose handler changed gets its listener
/// replaced; an event whose handler is unchanged keeps its listener (or gets
/// one, when none is stored).
pub open spec fn old_events_phase(
    old_events: Seq<(String, EventHandler)>,
    new_events: Seq<(String, EventHandler)>,
    closures: Seq<(String, ListenerId)>,
    node: NodeId,
    next: u64,
    k: int,
) -> ListenerState
    decreases k,
{
    if k <= 0 {
        (closures, Seq::empty(), Seq::empty(), next)
    } else {
        let st = old_events_phase(old_events, new_events, closures, node, next, k - 1);
        let (cl, kept, ops, id) = st;
        let name = old_events[k - 1].0;
        let pos = closure_pos(cl, name@, 0);
        match handler_lookup(new_events, name@) {
            Some(nh) => if old_events[k - 1].1.0 != nh {
                let (cl2, ops2) = match pos {
                    Some(p) => (
                        cl.remove(p),
                        ops.push(DomOp::RemoveListener { node, event: name, listener: cl[p].1 }),
                    ),
                    None => (cl, ops),
                };
                (
                    cl2,
                    kept.push((name, id)),
                    ops2.push(
                        DomOp::AddListener { node, event: name, handler: nh, listener: id },
                    ),
                    succ(id),
                )
            } else {
                match pos {
                    Some(p) => (cl.remove(p), kept.push((name, cl[p].1)), ops, id),
                    None => (
                        cl,
                        kept.push((name, id)),
                        ops.push(
                            DomOp::AddListener { node, event: name, handler: nh, listener: id },
                        ),
                        succ(id),
                    ),
                }
            },
            None => match pos {
                Some(p) => (
                    cl.remove(p),
                    kept,
                    ops.push(DomOp::RemoveListener { node, event: name, listener: cl[p].1 }),
                    id,
                ),
                None => st,
            },
        }
    }
}

/// Listener patching for the first `k` new events: an event the old element
/// lacks gets a new listener.
pub open spec fn new_events_phase(
    old_events: Seq<(String, EventHandler)>,
    new_events: Seq<(String, EventHandler)>,
    node: NodeId,
    start: (Seq<(String, ListenerId)>, Seq<DomOp>, u64),
    k: int,
) -> (Seq<(String, ListenerId)>, Seq<DomOp>, u64)
    decreases k,
{
    if k <= 0 {
        start
    } else {
        let (kept, ops, id) = new_events_phase(old_events, new_events, node, start, k - 1);
        let name = new_events[k - 1].0;
        if handler_lookup(old_events, name@) is None {
            (
                kept.push((name, id)),
                ops.push(
                    DomOp::AddListener {
                        node,
                        event: name,
                        handler: new_events[k - 1].1.0,
                        listener: id,
                    },
                ),
                succ(id),
            )
        } else {
            (kept, ops, id)
        }
    }
}

/// The listener changes from `old` to `new` on `node`: the listeners the new
/// element keeps, the operations, and the next identifier.
pub open spec fn listener_plan(old: VElement, new: VElement, node: NodeId, next: u64) -> (
    Seq<(String, ListenerId)>,
    Seq<DomOp>,
    u64,
) {
    let st = old_events_phase(
        old.events@,
        new.events@,
        old.listener_closures@,
        node,
        next,
        old.events@.len() as int,
    );
    new_events_phase(old.events@, new.events@, node, (st.1, st.2, st.3), new.events@.len() as int)
}

/// Look up the handler of the last event named `name`.
fn find_handler(events: &Vec<(String, EventHandler)>, name: &String) -> (r: Option<HandlerId>)
    ensures
        r == handler_lookup(events@, name@),
{
    let mut i = events.len();
    assert(events@.take(i as int) =~= events@);
    while i > 0
        invariant
            i <= events@.len(),
            handler_lookup(events@, name@) == handler_lookup(events@.take(i as int), name@),
        decreases i,
    {
        let ghost t = events@.take(i as int);
        assert(t.drop_last() == events@.take(i - 1));
        if events[i - 1].0 == *name {
            return Some(events[i - 1].1.0);
        }
        i = i - 1;
    }
    None
}

/// Find the position of the first stored listener for `name`.
fn find_closure(cl: &Vec<(String, ListenerId)>, name: &String) -> (r: Option<usize>)
    ensures
        match r {
            Some(p) => closure_pos(cl@, name@, 0) == Some(p as int),
            None => closure_pos(cl@, name@, 0) is None,
        },
        r matches Some(p) ==> p < cl@.len(),
{
    let mut i: usize = 0;
    while i < cl.len()
        invariant
            i <= cl@.len(),
            closure_pos(cl@, name@, 0) == closure_pos(cl@, name@, i as int),
        decreases cl@.len() - i,
    {
        if cl[i].0 == *name {
            return Some(i);
        }
        i = i + 1;
    }
    None
}

/// Compare old and new event listeners on `node`, planning the listeners to
/// add and remove; the new element records the listeners it keeps.
pub fn patch_event_listeners(old_el: &VElement, new_el: &mut VElement, node: NodeId, plan: &mut Plan)
    ensures
        ({
            let lp = listener_plan(*old_el, *old(new_el), node, old(plan).next_id);
            &&& final(new_el).listener_closures@ == lp.0
            &&& final(plan).ops@ == old(plan).ops@ + lp.1
            &&& final(plan).next_id == lp.2
        }),
        final(new_el).tag == old(new_el).tag,
        final(new_el).attrs == old(new_el).attrs,
        final(new_el).events == old(new_el).events,
        final(new_el).children == old(new_el).children,
        final(new_el).key == old(new_el).key,
        final(new_el).dom_ref == old(new_el).dom_ref,
{
    let ghost ops0 = plan.ops@;
    let ghost next0 = plan.next_id;
    // A working copy of the old element's listeners, from which they are taken.
    let mut closures: Vec<(String, ListenerId)> = Vec::new();
    let mut c: usize = 0;
    while c < old_el.listener_closures.len()
        invariant
            c <= old_el.listener_closures@.len(),
            closures@ == old_el.listener_closures@.take(c as int),
        decreases old_el.listener_closures@.len() - c,
    {
        let entry = (old_el.listener_closures[c].0.clone(), old_el.listener_closures[c].1);
        closures.push(entry);
        proof {
            assert(old_el.listener_closures@.take(c + 1) =~= old_el.listener_closures@.take(c as int).push(
                old_el.listener_closures@[c as int],
            ));
        }
        c = c + 1;
    }
    proof {
        assert(old_el.listener_closures@.take(c as int) =~= old_el.listener_closures@);
    }
    let mut kept: Vec<(String, ListenerId)> = Vec::new();
    let ghost ev_new = new_el.events@;
    // Events of the old element
    let mut i: usize = 0;
    while i < old_el.events.len()
        invariant
            i <= old_el.events@.len(),
            new_el.events@ == ev_new,
            ({
                let st = old_events_phase(
                    old_el.events@,
                    ev_new,
                    old_el.listener_closures@,
                    node,
                    next0,
                    i as int,
                );
                &&& closures@ == st.0
                &&& kept@ == st.1
                &&& plan.ops@ == ops0 + st.2
                &&& plan.next_id == st.3
            }),
        decreases old_el.events@.len() - i,
    {
        let name = &old_el.events[i].0;
        let handler = old_el.events[i].1.0;
        let pos = find_closure(&closures, name);
        match find_handler(&new_el.events, name) {
            Some(nh) => {
                if handler != nh {
                    if let Some(p) = pos {
                        let (_, lid) = closures.remove(p);
                        plan.ops.push(DomOp::RemoveListener { node, event: name.clone(), listener: lid });
                    }
                    let lid = plan.fresh_id();
                    plan.ops.push(DomOp::AddListener { node, event: name.clone(), handler: nh, listener: lid });
                    kept.push((name.clone(), lid));
                } else {
                    match pos {
                        Some(p) => {
                            let (_, lid) = closures.remove(p);
                            kept.push((name.clone(), lid));
                        },
                        None => {
                                    let lid = plan.fresh_id();
                            plan.ops.push(DomOp::AddListener { node, event: name.clone(), handler: nh, listener: lid });
                            kept.push((name.clone(), lid));
                        },
                    }
                }
            },
            None => {
                if let Some(p) = pos {
                    let (_, lid) = closures.remove(p);
                    plan.ops.push(DomOp::RemoveListener { node, event: name.clone(), listener: lid });
                }
            },
        }
        i = i + 1;
    }
    let ghost st = old_events_phase(
        old_el.events@,
        ev_new,
        old_el.listener_closures@,
        node,
        next0,
        old_el.events@.len() as int,
    );
    let ghost start = (st.1, st.2, st.3);
    // Events only the new element has
    let mut j: usize = 0;
    while j < new_el.events.len()
        invariant
            j <= ev_new.len(),
            new_el.events@ == ev_new,
            ({
                let ph = new_events_phase(old_el.events@, ev_new, node, start, j as int);
                &&& kept@ == ph.0
                &&& plan.ops@ == ops0 + ph.1
                &&& plan.next_id == ph.2
            }),
        decreases ev_new.len() - j,
    {
        let name = &new_el.events[j].0;
        if find_handler(&old_el.events, name).is_none() {
            let lid = plan.fresh_id();
            plan.ops.push(
                DomOp::AddListener { node, event: name.clone(), handler: new_el.events[j].1.0, listener: lid },
            );
            kept.push((name.clone(), lid));
        }
        j = j + 1;
    }
    new_el.listener_closures = kept;
}

// ---------------------------------------------------------------------------
// The attribute law
// ---------------------------------------------------------------------------

/// The attributes as a map from name to value (later entries win).
pub open spec fn attr_map(attrs: Seq<(String, String)>) -> Map<Seq<char>, Seq<char>>
    decreases attrs.len(),
{
    if attrs.len() == 0 {
        Map::empty()
    } else {
        attr_map(attrs.drop_last()).insert(attrs.last().0@, attrs.last().1@)
    }
}

/// The attributes of `node` after applying `ops` to the attributes `m`.
pub open spec fn apply_attr_ops(m: Map<Seq<char>, Seq<char>>, ops: Seq<DomOp>, node: NodeId) -> Map<
    Seq<char>,
    Seq<char>,
>
    decreases ops.len(),
{
    if ops.len() == 0 {
        m
    } else {
        let before = apply_attr_ops(m, ops.drop_last(), node);
        match ops.last() {
            DomOp::SetAttribute { node: n, name, value } => if n == node {
                before.insert(name@, value@)
            } else {
                before
            },
            DomOp::RemoveAttribute { node: n, name } => if n == node {
                before.remove(name@)
            } else {
                before
            },
            _ => before,
        }
    }
}

/// No two attributes share a name.
pub open spec fn unique_attr_names(attrs: Seq<(String, String)>) -> bool {
    forall|a: int, b: int|
        #![trigger attrs[a], attrs[b]]
        0 <= a < b < attrs.len() ==> attrs[a].0@ != attrs[b].0@
}

proof fn lemma_attr_lookup_map(attrs: Seq<(String, String)>, name: Seq<char>)
    ensures
        attr_lookup(attrs, name) is Some <==> attr_map(attrs).contains_key(name),
        attr_lookup(attrs, name) matches Some(v) ==> attr_map(attrs)[name] == v,
    decreases attrs.len(),
{
    if attrs.len() > 0 {
        lemma_attr_lookup_map(attrs.drop_last(), name);
    }
}

pub(crate) proof fn lemma_apply_concat(m: Map<Seq<char>, Seq<char>>, a: Seq<DomOp>, b: Seq<DomOp>, node: NodeId)
    ensures
        apply_attr_ops(m, a + b, node) == apply_attr_ops(apply_attr_ops(m, a, node), b, node),
    decreases b.len(),
{
    if b.len() == 0 {
        assert(a + b =~= a);
    } else {
        lemma_apply_concat(m, a, b.drop_last(), node);
        assert((a + b).drop_last() =~= a + b.drop_last());
        assert((a + b).last() == b.last());
    }
}

/// The names dropped by the remove operations for the first `k` old attributes.
pub open spec fn dropped_names(old: Seq<(String, String)>, new: Seq<(String, String)>, k: int) -> Set<
    Seq<char>,
>
    decreases k,
{
    if k <= 0 {
        Set::empty()
    } else {
        let rest = dropped_names(old, new, k - 1);
        if attr_lookup(new, old[k - 1].0@) is None {
            rest.insert(old[k - 1].0@)
        } else {
            rest
        }
    }
}

/// A name that a prefix of unique entries does not reach is not in its map.
proof fn lemma_prefix_excludes(attrs: Seq<(String, String)>, k: int)
    requires
        unique_attr_names(attrs),
        0 <= k < attrs.len(),
    ensures
        !attr_map(attrs.take(k)).contains_key(attrs[k].0@),
{
    let t = attrs.take(k);
    if attr_map(t).contains_key(attrs[k].0@) {
        let a = lemma_lookup_witness(t, attrs[k].0@);
        assert(attrs[a].0@ != attrs[k].0@);
    }
}

/// After the set operations for the first `k` new attributes, the attributes
/// are the old ones overridden by the first `k` new ones.
proof fn lemma_set_phase(old: Seq<(String, String)>, new: Seq<(String, String)>, node: NodeId, k: int)
    requires
        0 <= k <= new.len(),
        unique_attr_names(new),
    ensures
        apply_attr_ops(attr_map(old), set_changed_attrs_ops(old, new, node, k), node)
            == attr_map(old).union_prefer_right(attr_map(new.take(k))),
    decreases k,
{
    if k == 0 {
        assert(attr_map(new.take(0)) =~= Map::<Seq<char>, Seq<char>>::empty());
        assert(attr_map(old).union_prefer_right(attr_map(new.take(0))) =~= attr_map(old));
    } else {
        lemma_set_phase(old, new, node, k - 1);
        let prev = set_changed_attrs_ops(old, new, node, k - 1);
        let m0 = apply_attr_ops(attr_map(old), prev, node);
        let m = apply_attr_ops(attr_map(old), set_changed_attrs_ops(old, new, node, k), node);
        let name = new[k - 1].0@;
        let value = new[k - 1].1@;
        assert(new.take(k).drop_last() =~= new.take(k - 1));
        assert(attr_map(new.take(k)) == attr_map(new.take(k - 1)).insert(name, value));
        lemma_attr_lookup_map(old, name);
        lemma_prefix_excludes(new, k - 1);
        if attr_lookup(old, name) == Some(value) {
            assert(m == m0);
            assert(m0 =~= attr_map(old).union_prefer_right(attr_map(new.take(k))));
        } else {
            let op = DomOp::SetAttribute { node, name: new[k - 1].0, value: new[k - 1].1 };
            assert(prev.push(op).drop_last() =~= prev);
            assert(m == m0.insert(name, value));
            assert(m =~= attr_map(old).union_prefer_right(attr_map(new.take(k))));
        }
    }
}

/// After the remove operations for the first `k` old attributes, the dropped
/// names among them are gone and everything else is as before.
proof fn lemma_remove_phase(
    m0: Map<Seq<char>, Seq<char>>,
    old: Seq<(String, String)>,
    new: Seq<(String, String)>,
    node: NodeId,
    k: int,
)
    requires
        0 <= k <= old.len(),
    ensures
        apply_attr_ops(m0, remove_dropped_attrs_ops(old, new, node, k), node) == m0.remove_keys(
            dropped_names(old, new, k),
        ),
    decreases k,
{
    if k == 0 {
        assert(m0.remove_keys(Set::empty()) =~= m0);
    } else {
        lemma_remove_phase(m0, old, new, node, k - 1);
        let prev = remove_dropped_attrs_ops(old, new, node, k - 1);
        let mp = apply_attr_ops(m0, prev, node);
        let m = apply_attr_ops(m0, remove_dropped_attrs_ops(old, new, node, k), node);
        let name = old[k - 1].0@;
        if attr_lookup(new, name) is None {
            let op = DomOp::RemoveAttribute { node, name: old[k - 1].0 };
            assert(prev.push(op).drop_last() =~= prev);
            assert(m == mp.remove(name));
            assert(m =~= m0.remove_keys(dropped_names(old, new, k)));
        } else {
            assert(m == mp);
        }
    }
}

/// Every dropped name is absent from the new attributes.
proof fn lemma_dropped_not_new(old: Seq<(String, String)>, new: Seq<(String, String)>, k: int, n: Seq<char>)
    requires
        dropped_names(old, new, k).contains(n),
    ensures
        attr_lookup(new, n) is None,
    decreases k,
{
    if k > 0 {
        if !(attr_lookup(new, old[k - 1].0@) is None && n == old[k - 1].0@) {
            lemma_dropped_not_new(old, new, k - 1, n);
        }
    }
}

/// Every old name that the new attributes lack is dropped.
proof fn lemma_dropped_complete(
    old: Seq<(String, String)>,
    new: Seq<(String, String)>,
    k: int,
    a: int,
)
    requires
        0 <= a < k <= old.len(),
        attr_lookup(new, old[a].0@) is None,
    ensures
        dropped_names(old, new, k).contains(old[a].0@),
    decreases k,
{
    if a < k - 1 {
        lemma_dropped_complete(old, new, k - 1, a);
    }
}

/// Applying the planned attribute changes to the old attributes gives exactly
/// the new attributes, provided no two new attributes share a name.
pub proof fn lemma_attribute_ops_yield_new(
    old: Seq<(String, String)>,
    new: Seq<(String, String)>,
    node: NodeId,
)
    requires
        unique_attr_names(new),
    ensures
        apply_attr_ops(attr_map(old), attribute_ops(old, new, node), node) == attr_map(new),
{
    let set_ops = set_changed_attrs_ops(old, new, node, new.len() as int);
    let rem_ops = remove_dropped_attrs_ops(old, new, node, old.len() as int);
    lemma_apply_concat(attr_map(old), set_ops, rem_ops, node);
    lemma_set_phase(old, new, node, new.len() as int);
    assert(new.take(new.len() as int) =~= new);
    let m1 = attr_map(old).union_prefer_right(attr_map(new));
    lemma_remove_phase(m1, old, new, node, old.len() as int);
    let d = dropped_names(old, new, old.len() as int);
    let m2 = m1.remove_keys(d);
    assert forall|n: Seq<char>|
        #![trigger m2.dom().contains(n)]
        #![trigger attr_map(new).dom().contains(n)]
        #![trigger m2[n]]
        m2.dom().contains(n) == attr_map(new).dom().contains(n) && (m2.dom().contains(n) ==> m2[n]
            == attr_map(new)[n]) by {
        lemma_attr_lookup_map(new, n);
        if attr_map(new).contains_key(n) {
            if d.contains(n) {
                lemma_dropped_not_new(old, new, old.len() as int, n);
            }
        } else if attr_map(old).contains_key(n) {
            let a = lemma_lookup_witness(old, n);
            lemma_dropped_complete(old, new, old.len() as int, a);
        }
    }
    assert(m2 =~= attr_map(new));
}

/// With unique names, looking up the name of entry `a` finds entry `a`'s value.
proof fn lemma_lookup_unique(attrs: Seq<(String, String)>, a: int)
    requires
        unique_attr_names(attrs),
        0 <= a < attrs.len(),
    ensures
        attr_lookup(attrs, attrs[a].0@) == Some(attrs[a].1@),
    decreases attrs.len(),
{
    let last = attrs.len() - 1;
    if a < last {
        assert(attrs[a].0@ != attrs[last].0@);
        let d = attrs.drop_last();
        assert forall|x: int, y: int| #![trigger d[x], d[y]] 0 <= x < y < d.len() implies d[x].0@ != d[y].0@ by {
            assert(attrs[x].0@ != attrs[y].0@);
        }
        lemma_lookup_unique(d, a);
    }
}

/// A name that no entry carries is not found.
proof fn lemma_lookup_absent(attrs: Seq<(String, String)>, n: Seq<char>)
    requires
        !(exists|a: int| 0 <= a < attrs.len() && #[trigger] attrs[a].0@ == n),
    ensures
        attr_lookup(attrs, n) is None,
    decreases attrs.len(),
{
    if attrs.len() > 0 {
        let d = attrs.drop_last();
        assert(attrs.last().0@ != n) by {
            if attrs.last().0@ == n {
                assert(attrs[attrs.len() - 1].0@ == n);
            }
        }
        assert forall|a: int| 0 <= a < d.len() implies #[trigger] d[a].0@ != n by {
            assert(d[a] == attrs[a]);
            if d[a].0@ == n {
                assert(attrs[a].0@ == n);
            }
        }
        lemma_lookup_absent(d, n);
    }
}

/// Lookups only read the names and values.
proof fn lemma_lookup_same_views(a: Seq<(String, String)>, b: Seq<(String, String)>, n: Seq<char>)
    requires
        pairs_view(a) == pairs_view(b),
    ensures
        attr_lookup(a, n) == attr_lookup(b, n),
    decreases a.len(),
{
    assert(a.len() == pairs_view(a).len());
    assert(b.len() == pairs_view(b).len());
    if a.len() > 0 {
        assert(pairs_view(a)[a.len() - 1] == pairs_view(b)[b.len() - 1]);
        assert(pairs_view(a.drop_last()) =~= pairs_view(b.drop_last())) by {
            assert forall|i: int| 0 <= i < a.len() - 1 implies #[trigger] pairs_view(a.drop_last())[i]
                == pairs_view(b.drop_last())[i] by {
                assert(pairs_view(a)[i] == pairs_view(b)[i]);
            }
        }
        lemma_lookup_same_views(a.drop_last(), b.drop_last(), n);
    }
}

/// Unchanged attributes plan no changes: when the new attributes have the
/// same names and values, in the same order, and no two share a name,
/// nothing is set or removed.
pub proof fn lemma_same_attributes_no_ops(old: Seq<(String, String)>, new: Seq<(String, String)>, node: NodeId)
    requires
        pairs_view(old) == pairs_view(new),
        unique_attr_names(old),
    ensures
        attribute_ops(old, new, node) == Seq::<DomOp>::empty(),
{
    assert(old.len() == pairs_view(old).len());
    assert(new.len() == pairs_view(new).len());
    assert forall|a: int, b: int| #![trigger new[a], new[b]] 0 <= a < b < new.len() implies new[a].0@ != new[b].0@ by {
        assert(pairs_view(old)[a] == pairs_view(new)[a]);
        assert(pairs_view(old)[b] == pairs_view(new)[b]);
        assert(old[a].0@ != old[b].0@);
    }
    lemma_same_set_phase(old, new, node, new.len() as int);
    lemma_same_remove_phase(old, new, node, old.len() as int);
}

proof fn lemma_same_set_phase(old: Seq<(String, String)>, new: Seq<(String, String)>, node: NodeId, k: int)
    requires
        pairs_view(old) == pairs_view(new),
        unique_attr_names(new),
        0 <= k <= new.len(),
    ensures
        set_changed_attrs_ops(old, new, node, k) == Seq::<DomOp>::empty(),
    decreases k,
{
    if k > 0 {
        lemma_same_set_phase(old, new, node, k - 1);
        lemma_lookup_same_views(old, new, new[k - 1].0@);
        lemma_lookup_unique(new, k - 1);
    }
}

proof fn lemma_same_remove_phase(old: Seq<(String, String)>, new: Seq<(String, String)>, node: NodeId, k: int)
    requires
        pairs_view(old) == pairs_view(new),
        unique_attr_names(old),
        0 <= k <= old.len(),
    ensures
        remove_dropped_attrs_ops(old, new, node, k) == Seq::<DomOp>::empty(),
    decreases k,
{
    if k > 0 {
        lemma_same_remove_phase(old, new, node, k - 1);
        lemma_lookup_same_views(old, new, old[k - 1].0@);
        lemma_lookup_unique(old, k - 1);
    }
}

/// A name in the map is carried by some entry.
proof fn lemma_lookup_witness(attrs: Seq<(String, String)>, n: Seq<char>) -> (a: int)
    requires
        attr_map(attrs).contains_key(n),
    ensures
        0 <= a < attrs.len() && attrs[a].0@ == n,
    decreases attrs.len(),
{
    if attrs.last().0@ == n {
        attrs.len() - 1
    } else {
        let a = lemma_lookup_witness(attrs.drop_last(), n);
        assert(attrs.drop_last()[a] == attrs[a]);
        a
    }
}

} // verus!

verus! {

// ---------------------------------------------------------------------------
// Patching: specification
// ---------------------------------------------------------------------------

/// Remove from `parent` every DOM node that `v` placed there.
pub open spec fn remove_node_ops(parent: NodeId, v: VNode) -> Seq<DomOp> {
    removals(parent, dom_nodes(v))
}

/// Remove each of the DOM nodes `ds` from `parent`, in order.
pub open spec fn removals(parent: NodeId, ds: Seq<NodeId>) -> Seq<DomOp> {
    ds.map_values(|d: NodeId| DomOp::RemoveChild { parent, child: d })
}

/// Removing two runs of nodes is removing the first, then the second.
pub proof fn lemma_removals_concat(parent: NodeId, a: Seq<NodeId>, b: Seq<NodeId>)
    ensures
        removals(parent, a + b) == removals(parent, a) + removals(parent, b),
{
    assert(removals(parent, a + b) =~= removals(parent, a) + removals(parent, b));
}

/// The DOM element a patched element uses: the old element's node, or else a
/// freshly created element (in the SVG namespace for `svg` tags) placed in
/// `parent` before `anchor` (at the end when there is none); with the next
/// identifier and the operations that create and place it.
pub open spec fn element_target(
    old: VElement,
    new: VElement,
    parent: NodeId,
    anchor: Option<NodeId>,
    next: u64,
) -> (NodeId, u64, Seq<DomOp>) {
    match old.dom_ref {
        Some(d) => (d, next, Seq::empty()),
        None => (
            next,
            succ(next),
            seq![
                DomOp::CreateElement { node: next, tag: new.tag, svg: is_svg_tag(new.tag@) },
                insert_op(parent, next, anchor),
            ],
        ),
    }
}

/// The operations that patch element `old` into `new`, and the next identifier.
pub open spec fn patch_element_spec(
    old: VElement,
    new: VElement,
    parent: NodeId,
    anchor: Option<NodeId>,
    next: u64,
) -> (Seq<DomOp>, u64)
    decreases size(VNode::Element(old)) + size(VNode::Element(new)), 4int, 0int,
{
    let (node, n1, create) = element_target(old, new, parent, anchor, next);
    let lp = listener_plan(old, new, node, n1);
    proof {
        lemma_children_measure(old, new);
    }
    let c = children_spec(old.children@, new.children@, node, lp.2);
    (create + attribute_ops(old.attrs@, new.attrs@, node) + lp.1 + c.0, c.1)
}

/// `out` is element `new` as patched from `old`.
pub open spec fn element_patched(old: VElement, new: VElement, out: VElement, next: u64) -> bool
    decreases size(VNode::Element(old)) + size(VNode::Element(new)), 4int, 0int,
{
    let (node, n1, _) = element_target(old, new, 0, None, next);
    let lp = listener_plan(old, new, node, n1);
    proof {
        lemma_children_measure(old, new);
    }
    &&& out.tag == new.tag
    &&& out.attrs == new.attrs
    &&& out.events == new.events
    &&& out.key == new.key
    &&& out.dom_ref == Some(node)
    &&& out.listener_closures@ == lp.0
    &&& out.children@.len() == new.children@.len()
    &&& children_patched(old.children@, new.children@, out.children@, node, lp.2)
}

/// The children of two elements measure less than the elements.
pub proof fn lemma_children_measure(old: VElement, new: VElement)
    ensures
        sizes(old.children@, old.children@.len() as int) + sizes(new.children@, new.children@.len() as int) + 1
            < size(VNode::Element(old)) + size(VNode::Element(new)),
{
}

/// The operations that patch `old` into `new` within `parent` (placing a
/// remounted node before `anchor` when given), and the next identifier:
/// empty nodes mount or remove; nodes of different types are replaced; nodes
/// of the same type are patched in place.
pub open spec fn patch_spec(old: VNode, new: VNode, parent: NodeId, anchor: Option<NodeId>, next: u64) -> (
    Seq<DomOp>,
    u64,
)
    decreases size(old) + size(new), 5int, 0int,
{
    if old is Empty && new is Empty {
        (Seq::empty(), next)
    } else if old is Empty {
        (mount_spec(new, parent, anchor, false, next).0, advance(next, mount_ids(new)))
    } else if new is Empty {
        (remove_node_ops(parent, old), next)
    } else if !spec_same_type(old, new) {
        (
            remove_node_ops(parent, old) + mount_spec(new, parent, anchor, false, next).0,
            advance(next, mount_ids(new)),
        )
    } else {
        match (old, new) {
            (VNode::Element(o), VNode::Element(n)) => patch_element_spec(o, n, parent, anchor, next),
            (VNode::Text(ot, od), VNode::Text(nt, _)) => match od {
                Some(d) => (
                    if ot@ != nt@ {
                        seq![DomOp::SetText { node: d, text: nt }]
                    } else {
                        Seq::empty()
                    },
                    next,
                ),
                None => (Seq::empty(), next),
            },
            (VNode::Fragment(oc), VNode::Fragment(nc)) => {
                proof {
                    assert(sizes(oc@, oc@.len() as int) + sizes(nc@, nc@.len() as int) + 1 < size(old)
                        + size(new));
                }
                children_spec(oc@, nc@, parent, next)
            },
            (VNode::Dynamic(_, _), VNode::Dynamic(nr, _)) => (
                remove_node_ops(parent, old).push(
                    DomOp::MountDynamic { render: nr, parent, anchor, svg: false, slot: next },
                ),
                succ(next),
            ),
            _ => (Seq::empty(), next),
        }
    }
}

/// `out` is `new` as patched from `old`: every node records its DOM node and
/// every element its listeners.
pub open spec fn patched(
    old: VNode,
    new: VNode,
    out: VNode,
    parent: NodeId,
    anchor: Option<NodeId>,
    next: u64,
) -> bool
    decreases size(old) + size(new), 5int, 0int,
{
    if old is Empty && new is Empty {
        out == new
    } else if old is Empty {
        mounted(new, out, false, next)
    } else if new is Empty {
        out == new
    } else if !spec_same_type(old, new) {
        mounted(new, out, false, next)
    } else {
        match (old, new) {
            (VNode::Element(o), VNode::Element(n)) => match out {
                VNode::Element(x) => element_patched(o, n, x, next),
                _ => false,
            },
            (VNode::Text(_, od), VNode::Text(nt, _)) => out == VNode::Text(nt, od),
            (VNode::Fragment(oc), VNode::Fragment(nc)) => {
                proof {
                    assert(sizes(oc@, oc@.len() as int) + sizes(nc@, nc@.len() as int) + 1 < size(old)
                        + size(new));
                }
                match out {
                    VNode::Fragment(x) => x@.len() == nc@.len() && children_patched(
                        oc@,
                        nc@,
                        x@,
                        parent,
                        next,
                    ),
                    _ => false,
                }
            },
            (VNode::Dynamic(_, _), VNode::Dynamic(nr, _)) => out == VNode::Dynamic(nr, Some(next)),
            _ => false,
        }
    }
}

/// The DOM node that patching `old` into `new` (giving `out`) returns.
pub open spec fn patch_root(
    old: VNode,
    new: VNode,
    out: VNode,
    parent: NodeId,
    anchor: Option<NodeId>,
    next: u64,
) -> Option<NodeId> {
    if old is Empty && new is Empty {
        None
    } else if old is Empty {
        mount_spec(new, parent, anchor, false, next).1
    } else if new is Empty {
        None
    } else if !spec_same_type(old, new) {
        mount_spec(new, parent, anchor, false, next).1
    } else {
        match out {
            VNode::Fragment(x) => if x@.len() > 0 {
                spec_dom_node(x@[0])
            } else {
                None
            },
            _ => spec_dom_node(out),
        }
    }
}

/// Text nodes update in place: patching a rendered text node into another
/// text node keeps its DOM node, changes its content only when the text
/// differs, and allocates nothing.
pub proof fn lemma_text_updates_in_place(
    old_text: String,
    dom: NodeId,
    new_text: String,
    new_dom: Option<NodeId>,
    out: VNode,
    parent: NodeId,
    anchor: Option<NodeId>,
    next: u64,
)
    requires
        patched(VNode::Text(old_text, Some(dom)), VNode::Text(new_text, new_dom), out, parent, anchor, next),
    ensures
        ({
            let old = VNode::Text(old_text, Some(dom));
            let new = VNode::Text(new_text, new_dom);
            &&& patch_spec(old, new, parent, anchor, next).0 == if old_text@ == new_text@ {
                Seq::<DomOp>::empty()
            } else {
                seq![DomOp::SetText { node: dom, text: new_text }]
            }
            &&& patch_spec(old, new, parent, anchor, next).1 == next
            &&& spec_dom_node(out) == Some(dom)
            &&& patch_root(old, new, out, parent, anchor, next) == Some(dom)
        }),
{
}

/// Elements are reused: patching a rendered element into an element with the
/// same tag keeps its DOM node (nothing is created, removed or re-inserted
/// for it), and plans only the attribute changes, the listener changes and
/// the patching of the children inside it.
pub proof fn lemma_element_reused(
    old_el: VElement,
    dom: NodeId,
    new_el: VElement,
    out: VNode,
    parent: NodeId,
    anchor: Option<NodeId>,
    next: u64,
)
    requires
        old_el.dom_ref == Some(dom),
        old_el.tag@ == new_el.tag@,
        patched(VNode::Element(old_el), VNode::Element(new_el), out, parent, anchor, next),
    ensures
        ({
            let old = VNode::Element(old_el);
            let new = VNode::Element(new_el);
            let lp = listener_plan(old_el, new_el, dom, next);
            let c = children_spec(old_el.children@, new_el.children@, dom, lp.2);
            &&& patch_spec(old, new, parent, anchor, next).0 == attribute_ops(old_el.attrs@, new_el.attrs@, dom)
                + lp.1 + c.0
            &&& patch_spec(old, new, parent, anchor, next).1 == c.1
            &&& spec_dom_node(out) == Some(dom)
            &&& patch_root(old, new, out, parent, anchor, next) == Some(dom)
        }),
{
    let lp = listener_plan(old_el, new_el, dom, next);
    let c = children_spec(old_el.children@, new_el.children@, dom, lp.2);
    assert(Seq::<DomOp>::empty() + attribute_ops(old_el.attrs@, new_el.attrs@, dom) + lp.1 + c.0
        =~= attribute_ops(old_el.attrs@, new_el.attrs@, dom) + lp.1 + c.0);
}

} // verus!

verus! {

// ---------------------------------------------------------------------------
// Patching
// ---------------------------------------------------------------------------

/// Plan the removal from `parent` of every DOM node that `v` placed there.
pub(crate) fn remove_dom_node(v: &VNode, parent: NodeId, plan: &mut Plan)
    ensures
        final(plan).ops@ == old(plan).ops@ + remove_node_ops(parent, *v),
        final(plan).next_id == old(plan).next_id,
    decreases size(*v),
{
    match v {
        VNode::Fragment(cs) => {
            let ghost ops0 = plan.ops@;
            let mut k: usize = 0;
            while k < cs.len()
                invariant
                    k <= cs@.len(),
                    size(*v) == 1 + sizes(cs@, cs@.len() as int),
                    plan.ops@ == ops0 + removals(parent, dom_nodes_all(cs@, k as int)),
                    plan.next_id == old(plan).next_id,
                decreases cs@.len() - k,
            {
                proof {
                    lemma_size_le_sizes(cs@, k as int);
                    lemma_removals_concat(parent, dom_nodes_all(cs@, k as int), dom_nodes(cs@[k as int]));
                }
                remove_dom_node(&cs[k], parent, plan);
                k = k + 1;
            }
            proof {
                assert(plan.ops@ =~= old(plan).ops@ + remove_node_ops(parent, *v));
            }
        },
        _ => {
            if let Some(node) = v.dom_node() {
                plan.ops.push(DomOp::RemoveChild { parent, child: node });
            }
            proof {
                assert(final(plan).ops@ =~= old(plan).ops@ + remove_node_ops(parent, *v));
            }
        },
    }
}

/// Patch `old` VNode tree into `new` VNode tree in-place within `parent`.
///
/// Returns the (possibly new) root DOM node for the patched subtree.
/// When `old` and `new` are the same type, the existing DOM node is reused
/// and only the differences are applied (attributes, events, children).
/// When they differ, the old DOM node is replaced entirely.
pub fn patch_node(
    old_node: &VNode,
    new_node: &mut VNode,
    parent: NodeId,
    anchor: Option<NodeId>,
    plan: &mut Plan,
) -> (root: Option<NodeId>)
    ensures
        final(plan).ops@ == old(plan).ops@ + patch_spec(*old_node, *old(new_node), parent, anchor, old(plan).next_id).0,
        final(plan).next_id == patch_spec(*old_node, *old(new_node), parent, anchor, old(plan).next_id).1,
        patched(*old_node, *old(new_node), *final(new_node), parent, anchor, old(plan).next_id),
        root == patch_root(*old_node, *old(new_node), *final(new_node), parent, anchor, old(plan).next_id),
    decreases size(*old_node) + size(*old(new_node)), 5int, 0int,
{
    let ghost n0 = *new_node;
    let ghost start = plan.next_id;
    let ghost ops0 = plan.ops@;
    let old_empty = matches!(old_node, VNode::Empty);
    let new_empty = matches!(new_node, VNode::Empty);
    // If both are empty, nothing to do
    if old_empty && new_empty {
        return None;
    }
    // If old is empty but new is not → mount new
    if old_empty {
        return super::mount::mount_to_dom(new_node, parent, anchor, plan);
    }
    // If new is empty but old is not → remove old
    if new_empty {
        remove_dom_node(old_node, parent, plan);
        return None;
    }
    // If types differ → replace
    if !old_node.same_type(new_node) {
        return replace_node(old_node, new_node, parent, anchor, plan);
    }
    // Same type — dispatch to specialized patch
    match old_node {
        VNode::Element(old_el) => match new_node {
            VNode::Element(new_el) => {
                proof {
                    assert(size(VNode::Element(*old_el)) + size(VNode::Element(*new_el)) == size(*old_node) + size(n0));
                }
                Some(patch_element(old_el, new_el, parent, anchor, plan))
            },
            _ => None,
        },
        VNode::Text(old_text, old_dom) => match new_node {
            VNode::Text(new_text, new_dom) => {
                *new_dom = *old_dom;
                patch_text_node(old_text, new_text, *old_dom, plan)
            },
            _ => None,
        },
        VNode::Fragment(old_children) => match new_node {
            VNode::Fragment(new_children) => {
                // A fragment is transparent — delegate to children patching
                super::children::patch_children(old_children, new_children, parent, plan);
                // Return the first child of the new fragment as the "root"
                if new_children.len() > 0 {
                    new_children[0].dom_node()
                } else {
                    None
                }
            },
            _ => None,
        },
        VNode::Dynamic(_, _) => match new_node {
            VNode::Dynamic(new_render, new_dom) => {
                // Remove old dynamic content, then mount the re-rendered node
                remove_dom_node(old_node, parent, plan);
                let slot = plan.fresh_id();
                plan.ops.push(
                    DomOp::MountDynamic { render: *new_render, parent, anchor, svg: false, slot },
                );
                *new_dom = Some(slot);
                Some(slot)
            },
            _ => None,
        },
        VNode::Empty => None,
    }
}

/// Remove the old DOM node and mount the new one in its place.
fn replace_node(
    old_node: &VNode,
    new_node: &mut VNode,
    parent: NodeId,
    anchor: Option<NodeId>,
    plan: &mut Plan,
) -> (root: Option<NodeId>)
    ensures
        final(plan).ops@ == old(plan).ops@ + remove_node_ops(parent, *old_node) + mount_spec(
            *old(new_node),
            parent,
            anchor,
            false,
            old(plan).next_id,
        ).0,
        final(plan).next_id == advance(old(plan).next_id, mount_ids(*old(new_node))),
        mounted(*old(new_node), *final(new_node), false, old(plan).next_id),
        root == mount_spec(*old(new_node), parent, anchor, false, old(plan).next_id).1,
{
    remove_dom_node(old_node, parent, plan);
    let root = super::mount::mount_to_dom(new_node, parent, anchor, plan);
    proof {
        assert(final(plan).ops@ =~= old(plan).ops@ + remove_node_ops(parent, *old_node) + mount_spec(
            *old(new_node),
            parent,
            anchor,
            false,
            old(plan).next_id,
        ).0);
    }
    root
}

/// Update a text node's content if it changed.
fn patch_text_node(old_text: &String, new_text: &String, dom: Option<NodeId>, plan: &mut Plan) -> (r: Option<
    NodeId,
>)
    ensures
        final(plan).ops@ == old(plan).ops@ + match dom {
            Some(d) => if old_text@ != new_text@ {
                seq![DomOp::SetText { node: d, text: *new_text }]
            } else {
                Seq::<DomOp>::empty()
            },
            None => Seq::<DomOp>::empty(),
        },
        final(plan).next_id == old(plan).next_id,
        r == dom,
{
    match dom {
        Some(node) => {
            if *old_text != *new_text {
                plan.ops.push(DomOp::SetText { node, text: new_text.clone() });
            }
            proof {
                assert(final(plan).ops@ =~= old(plan).ops@ + if old_text@ != new_text@ {
                    seq![DomOp::SetText { node, text: *new_text }]
                } else {
                    Seq::<DomOp>::empty()
                });
            }
            Some(node)
        },
        None => {
            proof {
                assert(final(plan).ops@ =~= old(plan).ops@ + Seq::<DomOp>::empty());
            }
            None
        },
    }
}

/// Patch an old `VElement` into a new one, reusing the existing DOM element.
fn patch_element(
    old_el: &VElement,
    new_el: &mut VElement,
    parent: NodeId,
    anchor: Option<NodeId>,
    plan: &mut Plan,
) -> (node: NodeId)
    ensures
        final(plan).ops@ == old(plan).ops@ + patch_element_spec(*old_el, *old(new_el), parent, anchor, old(plan).next_id).0,
        final(plan).next_id == patch_element_spec(*old_el, *old(new_el), parent, anchor, old(plan).next_id).1,
        element_patched(*old_el, *old(new_el), *final(new_el), old(plan).next_id),
        node == element_target(*old_el, *old(new_el), parent, anchor, old(plan).next_id).0,
    decreases size(VNode::Element(*old_el)) + size(VNode::Element(*old(new_el))), 4int, 0int,
{
    let ghost n0 = *new_el;
    let ghost start = plan.next_id;
    let ghost ops0 = plan.ops@;
    // Get the existing DOM element from old, or create one with the right namespace
    let node = match old_el.dom_ref {
        Some(n) => n,
        None => {
            let id = plan.fresh_id();
            plan.ops.push(
                DomOp::CreateElement { node: id, tag: new_el.tag.clone(), svg: super::mount::is_svg(&new_el.tag) },
            );
            push_insert(plan, parent, id, anchor);
            id
        },
    };
    let ghost target = element_target(*old_el, n0, parent, anchor, start);
    proof {
        assert(plan.ops@ =~= ops0 + target.2);
    }
    // Patch attributes
    patch_attributes(old_el, new_el, node, plan);
    // Patch event listeners
    patch_event_listeners(old_el, new_el, node, plan);
    // Update the new VElement's DOM reference to reuse the existing element
    new_el.dom_ref = Some(node);
    proof {
        lemma_children_measure(*old_el, n0);
    }
    // Patch children
    super::children::patch_children(&old_el.children, &mut new_el.children, node, plan);
    proof {
        assert(plan.ops@ =~= ops0 + patch_element_spec(*old_el, n0, parent, anchor, start).0);
    }
    node
}

} // verus!
