use vstd::prelude::*;

pub mod children;
pub mod dom;
pub mod listeners;
pub mod mount;
pub mod patch;
pub mod rerender;

verus! {

/// Handle of a real DOM node kept by the host that applies a [`patch::Plan`].
pub type NodeId = u64;

/// Identity of an event handler closure registered with the host.
pub type HandlerId = u64;

/// Handle of an installed event listener (a wrapped handler attached to a node).
pub type ListenerId = u64;

/// Identity of a render closure registered with the host (for dynamic nodes).
pub type RenderId = u64;

// ---------------------------------------------------------------------------
// DOM operations
// ---------------------------------------------------------------------------

/// One change to the real DOM. Mounting and patching compute the list of
/// changes; the host applies them in order to its DOM nodes.
#[derive(Clone, Debug, PartialEq, Eq)]
pub enum DomOp {
    /// Create element `node` with tag `tag`, in the SVG namespace when `svg`.
    CreateElement { node: NodeId, tag: String, svg: bool },
    /// Create text node `node` holding `text`.
    CreateText { node: NodeId, text: String },
    /// Set attribute `name` of `node` to `value`.
    SetAttribute { node: NodeId, name: String, value: String },
    /// Remove attribute `name` from `node`.
    RemoveAttribute { node: NodeId, name: String },
    /// Wrap `handler` as listener `listener` and attach it to `node` for `event`.
    AddListener { node: NodeId, event: String, handler: HandlerId, listener: ListenerId },
    /// Detach listener `listener` (for `event`) from `node` and release it.
    RemoveListener { node: NodeId, event: String, listener: ListenerId },
    /// Append `child` as the last child of `parent` (moving it if attached).
    AppendChild { parent: NodeId, child: NodeId },
    /// Insert `child` into `parent` before `anchor`.
    InsertBefore { parent: NodeId, child: NodeId, anchor: NodeId },
    /// Remove `child` from `parent`.
    RemoveChild { parent: NodeId, child: NodeId },
    /// Replace the text content of `node` by `text`.
    SetText { node: NodeId, text: String },
    /// Remove all the content of `node`.
    ClearChildren { node: NodeId },
    /// Run render closure `render`, mount the node it returns into `parent`
    /// (before `anchor` when given; in the SVG namespace when `svg`), and bind
    /// `slot` to the DOM node that mounting returns.
    MountDynamic { render: RenderId, parent: NodeId, anchor: Option<NodeId>, svg: bool, slot: NodeId },
}

/// The DOM operations planned so far, and the next unused node/listener id.
#[derive(Debug)]
pub struct Plan {
    pub ops: Vec<DomOp>,
    pub next_id: u64,
}

impl Plan {
    /// An empty plan whose fresh identifiers start at `first_id`.
    pub fn new(first_id: u64) -> (p: Plan)
        ensures
            p.ops@.len() == 0,
            p.next_id == first_id,
    {
        Plan { ops: Vec::new(), next_id: first_id }
    }
}

/// The identifier allocated after `x` (identifiers wrap around after `u64::MAX`).
pub open spec fn succ(x: u64) -> u64 {
    if x == u64::MAX {
        0
    } else {
        (x + 1) as u64
    }
}

/// The identifier `n` allocations after `x`.
pub open spec fn advance(x: u64, n: nat) -> u64
    decreases n,
{
    if n == 0 {
        x
    } else {
        succ(advance(x, (n - 1) as nat))
    }
}

/// One allocation after `x` is the successor of `x`.
pub proof fn lemma_advance_one(x: u64)
    ensures
        advance(x, 1) == succ(x),
{
    assert(advance(x, 0) == x);
}

/// Allocating `a` identifiers and then `b` is allocating `a + b`.
pub proof fn lemma_advance_add(x: u64, a: nat, b: nat)
    ensures
        advance(advance(x, a), b) == advance(x, a + b),
    decreases b,
{
    if b > 0 {
        lemma_advance_add(x, a, (b - 1) as nat);
    }
}

impl Plan {
    /// Allocate a fresh identifier.
    pub fn fresh_id(&mut self) -> (id: u64)
        ensures
            id == old(self).next_id,
            final(self).next_id == succ(id),
            final(self).ops == old(self).ops,
    {
        let id = self.next_id;
        self.next_id = if id == u64::MAX {
            0
        } else {
            id + 1
        };
        id
    }
}

/// Insert `child` into `parent`: before `anchor` when given, else at the end.
pub open spec fn insert_op(parent: NodeId, child: NodeId, anchor: Option<NodeId>) -> DomOp {
    match anchor {
        Some(a) => DomOp::InsertBefore { parent, child, anchor: a },
        None => DomOp::AppendChild { parent, child },
    }
}

/// Plan the insertion of `child` into `parent` (before `anchor` when given).
pub fn push_insert(plan: &mut Plan, parent: NodeId, child: NodeId, anchor: Option<NodeId>)
    ensures
        final(plan).ops@ == old(plan).ops@.push(insert_op(parent, child, anchor)),
        final(plan).next_id == old(plan).next_id,
{
    match anchor {
        Some(a) => plan.ops.push(DomOp::InsertBefore { parent, child, anchor: a }),
        None => plan.ops.push(DomOp::AppendChild { parent, child }),
    }
}

// ---------------------------------------------------------------------------
// VNodeType — classification of a VNode for diffing
// ---------------------------------------------------------------------------

/// The "type" of a VNode, used to decide whether two nodes can be patched
/// in-place or must be replaced entirely.
#[derive(Clone, Debug, PartialEq, Eq)]
pub enum VNodeType {
    Element(String),
    Text,
    Fragment,
    Dynamic,
    Empty,
}

/// Two node types are the same: same variant, and the same tag for elements.
pub open spec fn types_match(a: VNodeType, b: VNodeType) -> bool {
    match (a, b) {
        (VNodeType::Element(x), VNodeType::Element(y)) => x@ == y@,
        (VNodeType::Text, VNodeType::Text) => true,
        (VNodeType::Fragment, VNodeType::Fragment) => true,
        (VNodeType::Dynamic, VNodeType::Dynamic) => true,
        (VNodeType::Empty, VNodeType::Empty) => true,
        _ => false,
    }
}

// ---------------------------------------------------------------------------
// EventHandler
// ---------------------------------------------------------------------------

/// A clonable reference to an event handler registered with the host.
/// Two handlers are the same handler exactly when their identities agree.
#[derive(Clone, Copy, Debug, PartialEq, Eq, Structural)]
pub struct EventHandler(pub HandlerId);

impl EventHandler {
    pub fn new(id: HandlerId) -> (h: EventHandler)
        ensures
            h.0 == id,
    {
        EventHandler(id)
    }
}

// ---------------------------------------------------------------------------
// VNode / VElement
// ---------------------------------------------------------------------------

/// An HTML element representation.
#[derive(Debug)]
pub struct VElement {
    pub tag: String,
    pub attrs: Vec<(String, String)>,
    pub events: Vec<(String, EventHandler)>,
    pub children: Vec<VNode>,
    pub key: Option<String>,
    /// The DOM node rendered for this element (set during mount/patch).
    pub dom_ref: Option<NodeId>,
    /// The listeners installed for this element's events, so they can be
    /// removed during patching.
    pub listener_closures: Vec<(String, ListenerId)>,
}

/// A virtual DOM node.
#[derive(Debug)]
pub enum VNode {
    /// An HTML element with tag, attributes, event listeners, and children.
    Element(VElement),
    /// A text node, with the DOM node rendered for it.
    Text(String, Option<NodeId>),
    /// A fragment containing multiple nodes.
    Fragment(Vec<VNode>),
    /// A dynamic node: re-renders through the host's render closure.
    Dynamic(RenderId, Option<NodeId>),
    /// A placeholder for empty/false conditions.
    Empty,
}

/// The string pairs as character sequences.
pub open spec fn pairs_view(s: Seq<(String, String)>) -> Seq<(Seq<char>, Seq<char>)> {
    s.map_values(|p: (String, String)| (p.0@, p.1@))
}

/// The events as (event name, handler) pairs.
pub open spec fn events_view(s: Seq<(String, EventHandler)>) -> Seq<(Seq<char>, HandlerId)> {
    s.map_values(|p: (String, EventHandler)| (p.0@, p.1.0))
}

/// The key of a node as characters: only elements carry keys.
pub open spec fn spec_key(v: VNode) -> Option<Seq<char>> {
    match v {
        VNode::Element(el) => match el.key {
            Some(k) => Some(k@),
            None => None,
        },
        _ => None,
    }
}

/// The DOM node recorded for a node (elements, texts and dynamic nodes).
pub open spec fn spec_dom_node(v: VNode) -> Option<NodeId> {
    match v {
        VNode::Element(el) => el.dom_ref,
        VNode::Text(_, d) => d,
        VNode::Dynamic(_, d) => d,
        _ => None,
    }
}

/// The DOM nodes that a node placed in its parent, in order: its own for an
/// element, text or dynamic node, those of its members for a fragment.
pub open spec fn dom_nodes(v: VNode) -> Seq<NodeId>
    decreases size(v), 0nat,
{
    match v {
        VNode::Fragment(cs) => {
            proof {
                assert(sizes(cs@, cs@.len() as int) < size(v));
            }
            dom_nodes_all(cs@, cs@.len() as int)
        },
        _ => match spec_dom_node(v) {
            Some(d) => seq![d],
            None => Seq::empty(),
        },
    }
}

/// The DOM nodes that the first `k` nodes placed, in order.
pub open spec fn dom_nodes_all(cs: Seq<VNode>, k: int) -> Seq<NodeId>
    decreases sizes(cs, k), 1nat,
{
    if k <= 0 || k > cs.len() {
        Seq::empty()
    } else {
        proof {
            assert(sizes(cs, k) == sizes(cs, k - 1) + size(cs[k - 1]));
        }
        dom_nodes_all(cs, k - 1) + dom_nodes(cs[k - 1])
    }
}

/// The node type of a node.
pub open spec fn spec_node_type(v: VNode) -> VNodeType {
    match v {
        VNode::Element(el) => VNodeType::Element(el.tag),
        VNode::Text(_, _) => VNodeType::Text,
        VNode::Fragment(_) => VNodeType::Fragment,
        VNode::Dynamic(_, _) => VNodeType::Dynamic,
        VNode::Empty => VNodeType::Empty,
    }
}

/// Whether `old` can be patched into `new` in place.
pub open spec fn spec_same_type(old: VNode, new: VNode) -> bool {
    match (old, new) {
        (VNode::Element(a), VNode::Element(b)) => a.tag@ == b.tag@,
        (VNode::Text(_, _), VNode::Text(_, _)) => true,
        (VNode::Fragment(_), VNode::Fragment(_)) => true,
        (VNode::Dynamic(_, _), VNode::Dynamic(_, _)) => true,
        (VNode::Empty, VNode::Empty) => true,
        _ => false,
    }
}

/// Two nodes can be patched in place exactly when their node types are the
/// same (same variant, and the same tag for elements).
pub proof fn lemma_same_type_is_type_equality(a: VNode, b: VNode)
    ensures
        spec_same_type(a, b) <==> types_match(spec_node_type(a), spec_node_type(b)),
{
}

/// A measure of a node: one per node plus one per event listener. It bounds
/// the number of identifiers that mounting or patching the node consumes.
pub open spec fn size(v: VNode) -> nat
    decreases v,
{
    match v {
        VNode::Element(el) => 1 + el.events@.len() + sizes(el.children@, el.children@.len() as int),
        VNode::Fragment(cs) => 1 + sizes(cs@, cs@.len() as int),
        _ => 1,
    }
}

/// The sizes of the first `k` nodes of `s`, summed.
pub open spec fn sizes(s: Seq<VNode>, k: int) -> nat
    decreases s, k,
{
    if k <= 0 || k > s.len() {
        0
    } else {
        sizes(s, k - 1) + size(s[k - 1])
    }
}

/// Summed sizes only grow along prefixes.
pub proof fn lemma_sizes_mono(s: Seq<VNode>, a: int, b: int)
    requires
        0 <= a <= b <= s.len(),
    ensures
        sizes(s, a) <= sizes(s, b),
    decreases b - a,
{
    if a < b {
        lemma_sizes_mono(s, a, b - 1);
    }
}

/// Each node's size is part of the summed sizes.
pub proof fn lemma_size_le_sizes(s: Seq<VNode>, i: int)
    requires
        0 <= i < s.len(),
    ensures
        size(s[i]) <= sizes(s, s.len() as int),
        sizes(s, i) + size(s[i]) <= sizes(s, s.len() as int),
{
    lemma_sizes_mono(s, i + 1, s.len() as int);
}

/// The positions of the children that carry a key, in order.
pub open spec fn keyed_positions(children: Seq<VNode>) -> Seq<int>
    decreases children.len(),
{
    if children.len() == 0 {
        Seq::empty()
    } else {
        let rest = keyed_positions(children.drop_last());
        if spec_key(children.last()) is Some {
            rest.push(children.len() - 1)
        } else {
            rest
        }
    }
}

impl VNode {
    /// Create an element node.
    pub fn element(tag: &str) -> (b: VElementBuilder)
        ensures
            b.spec_tag() == tag@,
            b.spec_attrs() == Seq::<(Seq<char>, Seq<char>)>::empty(),
            b.spec_events() == Seq::<(Seq<char>, HandlerId)>::empty(),
            b.spec_children() == Seq::<VNode>::empty(),
            b.spec_key() is None,
    {
        VElementBuilder::new(tag)
    }

    /// Create a text node.
    pub fn text(content: &str) -> (v: VNode)
        ensures
            v matches VNode::Text(s, d) && s@ == content@ && d is None,
    {
        VNode::Text(String::from_str(content), None)
    }

    /// Create a fragment node.
    pub fn fragment(children: Vec<VNode>) -> (v: VNode)
        ensures
            v == VNode::Fragment(children),
    {
        VNode::Fragment(children)
    }

    /// Create a dynamic node rendered by the host's render closure `render`.
    pub fn dynamic(render: RenderId) -> (v: VNode)
        ensures
            v == VNode::Dynamic(render, None),
    {
        VNode::Dynamic(render, None)
    }

    /// Create an empty node.
    pub fn empty() -> (v: VNode)
        ensures
            v == VNode::Empty,
    {
        VNode::Empty
    }

    /// Return the `VNodeType` of this node (used for diffing).
    pub fn node_type(&self) -> (t: VNodeType)
        ensures
            t == spec_node_type(*self),
    {
        match self {
            VNode::Element(el) => VNodeType::Element(el.tag.clone()),
            VNode::Text(_, _) => VNodeType::Text,
            VNode::Fragment(_) => VNodeType::Fragment,
            VNode::Dynamic(_, _) => VNodeType::Dynamic,
            VNode::Empty => VNodeType::Empty,
        }
    }

    /// Quick check: can we patch `self` (old) into `other` (new) in-place?
    /// Two nodes can be patched if they have the same VNodeType (same variant,
    /// same tag for elements).
    pub fn same_type(&self, other: &VNode) -> (b: bool)
        ensures
            b == spec_same_type(*self, *other),
    {
        match (self, other) {
            (VNode::Element(a), VNode::Element(b)) => a.tag == b.tag,
            (VNode::Text(_, _), VNode::Text(_, _)) => true,
            (VNode::Fragment(_), VNode::Fragment(_)) => true,
            (VNode::Dynamic(_, _), VNode::Dynamic(_, _)) => true,
            (VNode::Empty, VNode::Empty) => true,
            _ => false,
        }
    }

    /// Return the rendering key for this node, if any.
    /// Only elements may have keys.
    pub fn key(&self) -> (k: Option<&str>)
        ensures
            k is Some == spec_key(*self) is Some,
            k matches Some(s) ==> spec_key(*self) == Some(s@),
    {
        match self {
            VNode::Element(el) => match &el.key {
                Some(k) => Some(k.as_str()),
                None => None,
            },
            _ => None,
        }
    }

    /// Return the DOM node this VNode was rendered to, if any.
    pub fn dom_node(&self) -> (d: Option<NodeId>)
        ensures
            d == spec_dom_node(*self),
    {
        match self {
            VNode::Element(el) => el.dom_ref,
            VNode::Text(_, d) => *d,
            VNode::Dynamic(_, d) => *d,
            VNode::Fragment(_) | VNode::Empty => None,
        }
    }

    /// Record the DOM node this VNode was rendered to. Fragments and empty
    /// nodes do not store a single DOM node, so for them this is a no-op.
    pub fn set_dom_node(&mut self, node: NodeId)
        ensures
            match *old(self) {
                VNode::Element(el) => *final(self) == VNode::Element(VElement { dom_ref: Some(node), ..el }),
                VNode::Text(s, _) => *final(self) == VNode::Text(s, Some(node)),
                VNode::Dynamic(r, _) => *final(self) == VNode::Dynamic(r, Some(node)),
                _ => *final(self) == *old(self),
            },
    {
        match self {
            VNode::Element(el) => {
                el.dom_ref = Some(node);
            },
            VNode::Text(_, d) => {
                *d = Some(node);
            },
            VNode::Dynamic(_, d) => {
                *d = Some(node);
            },
            VNode::Fragment(_) | VNode::Empty => {},
        }
    }

    /// Collect all `(child_index, child)` pairs whose child has a key.
    /// Used by the keyed children reconciliation algorithm.
    pub fn keyed_children(&self) -> (r: Vec<(usize, &VNode)>)
        ensures
            match *self {
                VNode::Element(el) => {
                    &&& r@.len() == keyed_positions(el.children@).len()
                    &&& forall|k: int|
                        0 <= k < r@.len() ==> #[trigger] r@[k].0 == keyed_positions(el.children@)[k]
                            && *r@[k].1 == el.children@[r@[k].0 as int]
                },
                _ => r@.len() == 0,
            },
    {
        let mut r: Vec<(usize, &VNode)> = Vec::new();
        match self {
            VNode::Element(el) => {
                let mut i: usize = 0;
                while i < el.children.len()
                    invariant
                        i <= el.children@.len(),
                        r@.len() == keyed_positions(el.children@.take(i as int)).len(),
                        forall|k: int|
                            0 <= k < r@.len() ==> #[trigger] r@[k].0 == keyed_positions(
                                el.children@.take(i as int),
                            )[k] && *r@[k].1 == el.children@[r@[k].0 as int],
                    decreases el.children@.len() - i,
                {
                    proof {
                        let t = el.children@.take(i + 1);
                        assert(t.drop_last() == el.children@.take(i as int));
                        assert(t.last() == el.children@[i as int]);
                    }
                    let c = &el.children[i];
                    if c.key().is_some() {
                        r.push((i, c));
                    }
                    i = i + 1;
                }
                assert(el.children@.take(el.children@.len() as int) == el.children@);
            },
            _ => {},
        }
        r
    }
}

// ---------------------------------------------------------------------------
// VElementBuilder
// ---------------------------------------------------------------------------

/// Builder for creating element VNodes.
pub struct VElementBuilder {
    tag: String,
    attrs: Vec<(String, String)>,
    events: Vec<(String, EventHandler)>,
    children: Vec<VNode>,
    key: Option<String>,
}

impl VElementBuilder {
    /// The tag the element will have.
    pub closed spec fn spec_tag(&self) -> Seq<char> {
        self.tag@
    }

    /// The attributes gathered so far, in order.
    pub closed spec fn spec_attrs(&self) -> Seq<(Seq<char>, Seq<char>)> {
        pairs_view(self.attrs@)
    }

    /// The event listeners gathered so far, in order.
    pub closed spec fn spec_events(&self) -> Seq<(Seq<char>, HandlerId)> {
        events_view(self.events@)
    }

    /// The children gathered so far, in order.
    pub closed spec fn spec_children(&self) -> Seq<VNode> {
        self.children@
    }

    /// The rendering key, if one was set.
    pub closed spec fn spec_key(&self) -> Option<Seq<char>> {
        match self.key {
            Some(k) => Some(k@),
            None => None,
        }
    }

    fn new(tag: &str) -> (b: VElementBuilder)
        ensures
            b.spec_tag() == tag@,
            b.spec_attrs() == Seq::<(Seq<char>, Seq<char>)>::empty(),
            b.spec_events() == Seq::<(Seq<char>, HandlerId)>::empty(),
            b.spec_children() == Seq::<VNode>::empty(),
            b.spec_key() is None,
    {
        let b = VElementBuilder {
            tag: String::from_str(tag),
            attrs: Vec::new(),
            events: Vec::new(),
            children: Vec::new(),
            key: None,
        };
        assert(pairs_view(b.attrs@) =~= Seq::<(Seq<char>, Seq<char>)>::empty());
        assert(events_view(b.events@) =~= Seq::<(Seq<char>, HandlerId)>::empty());
        b
    }

    /// Set an attribute.
    pub fn attr(self, name: &str, value: &str) -> (b: VElementBuilder)
        ensures
            b.spec_attrs() == self.spec_attrs().push((name@, value@)),
            b.spec_tag() == self.spec_tag(),
            b.spec_events() == self.spec_events(),
            b.spec_children() == self.spec_children(),
            b.spec_key() == self.spec_key(),
    {
        self.push_attr(name, value)
    }

    fn push_attr(self, name: &str, value: &str) -> (b: VElementBuilder)
        ensures
            b.spec_attrs() == self.spec_attrs().push((name@, value@)),
            b.spec_tag() == self.spec_tag(),
            b.spec_events() == self.spec_events(),
            b.spec_children() == self.spec_children(),
            b.spec_key() == self.spec_key(),
    {
        let mut b = self;
        let ghost old_attrs = b.attrs@;
        b.attrs.push((String::from_str(name), String::from_str(value)));
        assert(pairs_view(b.attrs@) =~= pairs_view(old_attrs).push((name@, value@)));
        b
    }

    /// Set the "class" attribute.
    pub fn class(self, value: &str) -> (b: VElementBuilder)
        ensures
            b.spec_attrs() == self.spec_attrs().push(("class"@, value@)),
            b.spec_tag() == self.spec_tag(),
            b.spec_events() == self.spec_events(),
            b.spec_children() == self.spec_children(),
            b.spec_key() == self.spec_key(),
    {
        self.push_attr("class", value)
    }

    /// Set the "id" attribute.
    pub fn id(self, value: &str) -> (b: VElementBuilder)
        ensures
            b.spec_attrs() == self.spec_attrs().push(("id"@, value@)),
            b.spec_tag() == self.spec_tag(),
            b.spec_events() == self.spec_events(),
            b.spec_children() == self.spec_children(),
            b.spec_key() == self.spec_key(),
    {
        self.push_attr("id", value)
    }

    /// Set the rendering key (used for keyed children reconciliation).
    pub fn key(self, value: &str) -> (b: VElementBuilder)
        ensures
            b.spec_key() == Some(value@),
            b.spec_tag() == self.spec_tag(),
            b.spec_attrs() == self.spec_attrs(),
            b.spec_events() == self.spec_events(),
            b.spec_children() == self.spec_children(),
    {
        let mut b = self;
        b.key = Some(String::from_str(value));
        b
    }

    /// Add an event listener.
    pub fn on(self, event: &str, handler: EventHandler) -> (b: VElementBuilder)
        ensures
            b.spec_events() == self.spec_events().push((event@, handler.0)),
            b.spec_tag() == self.spec_tag(),
            b.spec_attrs() == self.spec_attrs(),
            b.spec_children() == self.spec_children(),
            b.spec_key() == self.spec_key(),
    {
        let mut b = self;
        let ghost old_events = b.events@;
        b.events.push((String::from_str(event), handler));
        assert(events_view(b.events@) =~= events_view(old_events).push((event@, handler.0)));
        b
    }

    /// Add a child node.
    pub fn child(self, child: VNode) -> (b: VElementBuilder)
        ensures
            b.spec_children() == self.spec_children().push(child),
            b.spec_tag() == self.spec_tag(),
            b.spec_attrs() == self.spec_attrs(),
            b.spec_events() == self.spec_events(),
            b.spec_key() == self.spec_key(),
    {
        let mut b = self;
        b.children.push(child);
        b
    }

    /// Add multiple children.
    pub fn children(self, children: Vec<VNode>) -> (b: VElementBuilder)
        ensures
            b.spec_children() == self.spec_children() + children@,
            b.spec_tag() == self.spec_tag(),
            b.spec_attrs() == self.spec_attrs(),
            b.spec_events() == self.spec_events(),
            b.spec_key() == self.spec_key(),
    {
        let mut b = self;
        let mut more = children;
        b.children.append(&mut more);
        b
    }

    /// Add text content.
    pub fn text(self, content: &str) -> (b: VElementBuilder)
        ensures
            b.spec_children().len() == self.spec_children().len() + 1,
            b.spec_children().drop_last() == self.spec_children(),
            b.spec_children().last() matches VNode::Text(s, d) && s@ == content@ && d is None,
            b.spec_tag() == self.spec_tag(),
            b.spec_attrs() == self.spec_attrs(),
            b.spec_events() == self.spec_events(),
            b.spec_key() == self.spec_key(),
    {
        let mut b = self;
        b.children.push(VNode::text(content));
        assert(b.children@.drop_last() =~= self.children@);
        b
    }

    /// Build the element node.
    pub fn build(self) -> (v: VNode)
        ensures
            v matches VNode::Element(el) && {
                &&& el.tag@ == self.spec_tag()
                &&& pairs_view(el.attrs@) == self.spec_attrs()
                &&& events_view(el.events@) == self.spec_events()
                &&& el.children@ == self.spec_children()
                &&& spec_key(v) == self.spec_key()
                &&& el.dom_ref is None
                &&& el.listener_closures@.len() == 0
            },
    {
        VNode::Element(
            VElement {
                tag: self.tag,
                attrs: self.attrs,
                events: self.events,
                children: self.children,
                key: self.key,
                dom_ref: None,
                listener_closures: Vec::new(),
            },
        )
    }
}

} // verus!
