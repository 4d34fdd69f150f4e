use vstd::prelude::*;

use super::parse::HtmlTemplate;
use super::{
    lit_value, attr_value_view, attrs_view, lemma_attrs_view, lemma_nodes_view, node_view, nodes_view, string_literal,
    AttrValueView, HtmlAttr, HtmlAttrValue, HtmlNode, NodeView,
};

verus! {

// ---------------------------------------------------------------------------
// The generated code
// ---------------------------------------------------------------------------

/// The event of an `on:event` attribute name (the name itself otherwise).
pub open spec fn event_type(name: Seq<char>) -> Seq<char> {
    if name.len() >= 3 && name[0] == 'o' && name[1] == 'n' && name[2] == ':' {
        name.subrange(3, name.len() as int)
    } else {
        name
    }
}

/// `q` is attribute `a` with its name (for an event, the event's name) and
/// static value replaced by Rust string literals of those values: the kind
/// of value stays, and so does the Rust expression of a dynamic value or an
/// event handler. Which of the literals for a value is printed is left open.
pub open spec fn attr_quoted_as(a: (Seq<char>, AttrValueView), q: (Seq<char>, AttrValueView)) -> bool {
    match (a.1, q.1) {
        (AttrValueView::Static(v), AttrValueView::Static(w)) => lit_value(q.0) == Some(a.0) && lit_value(w) == Some(v),
        (AttrValueView::Dynamic(e), AttrValueView::Dynamic(f)) => lit_value(q.0) == Some(a.0) && e == f,
        (AttrValueView::Event(e), AttrValueView::Event(f)) => lit_value(q.0) == Some(event_type(a.0)) && e == f,
        (AttrValueView::Bool, AttrValueView::Bool) => lit_value(q.0) == Some(a.0),
        _ => false,
    }
}

/// `q` is node `n` with its tags, attribute names, static values and texts
/// replaced by Rust string literals of exactly those values; everything
/// else (the tree's shape, the Rust expressions, self-closing marks) stays.
pub open spec fn quoted_as(n: NodeView, q: NodeView) -> bool
    decreases n, 0nat,
{
    match n {
        NodeView::Element { tag, attrs, children, self_closing } => match q {
            NodeView::Element { tag: qt, attrs: qa, children: qc, self_closing: qs } => {
                &&& lit_value(qt) == Some(tag)
                &&& qs == self_closing
                &&& qa.len() == attrs.len()
                &&& forall|i: int| 0 <= i < attrs.len() ==> #[trigger] attr_quoted_as(attrs[i], qa[i])
                &&& quoted_all_as(children, qc)
            },
            _ => false,
        },
        NodeView::Text(t) => match q {
            NodeView::Text(qt) => lit_value(qt) == Some(t),
            _ => false,
        },
        NodeView::Fragment(children) => match q {
            NodeView::Fragment(qc) => quoted_all_as(children, qc),
            _ => false,
        },
        NodeView::Expr(e) => q == NodeView::Expr(e),
        NodeView::VNodeExpr(e) => q == NodeView::VNodeExpr(e),
    }
}

/// `qs` are the nodes `ns`, each with its strings replaced by the Rust string
/// literals printed for them.
pub open spec fn quoted_all_as(ns: Seq<NodeView>, qs: Seq<NodeView>) -> bool
    decreases ns, 1nat,
{
    if ns.len() == 0 {
        qs.len() == 0
    } else {
        qs.len() == ns.len() && quoted_all_as(ns.drop_last(), qs.drop_last()) && quoted_as(ns.last(), qs.last())
    }
}

/// Quoting nodes quotes each of them, position by position.
pub proof fn lemma_quoted_all_as(ns: Seq<NodeView>, qs: Seq<NodeView>)
    ensures
        quoted_all_as(ns, qs) <==> (qs.len() == ns.len() && forall|i: int|
            0 <= i < ns.len() ==> #[trigger] quoted_as(ns[i], qs[i])),
    decreases ns.len(),
{
    if ns.len() > 0 && qs.len() == ns.len() {
        lemma_quoted_all_as(ns.drop_last(), qs.drop_last());
        if forall|i: int| 0 <= i < ns.len() ==> #[trigger] quoted_as(ns[i], qs[i]) {
            assert forall|i: int| 0 <= i < ns.len() - 1 implies #[trigger] quoted_as(
                ns.drop_last()[i],
                qs.drop_last()[i],
            ) by {
                assert(quoted_as(ns[i], qs[i]));
            }
            assert(quoted_as(ns[ns.len() - 1], qs[ns.len() - 1]));
        }
        if quoted_all_as(ns, qs) {
            assert forall|i: int| 0 <= i < ns.len() implies #[trigger] quoted_as(ns[i], qs[i]) by {
                if i < ns.len() - 1 {
                    assert(quoted_as(ns.drop_last()[i], qs.drop_last()[i]));
                }
            }
        }
    }
}

/// The value that a string literal stands for (nothing when it is none).
pub open spec fn value_of(r: Seq<char>) -> Seq<char> {
    match lit_value(r) {
        Some(v) => v,
        None => Seq::empty(),
    }
}

/// An attribute with its literals read back as their values.
pub open spec fn read_back_attr(a: (Seq<char>, AttrValueView)) -> (Seq<char>, AttrValueView) {
    (
        value_of(a.0),
        match a.1 {
            AttrValueView::Static(w) => AttrValueView::Static(value_of(w)),
            other => other,
        },
    )
}

/// A node with its literals read back as their values.
pub open spec fn read_back(q: NodeView) -> NodeView
    decreases q, 0nat,
{
    match q {
        NodeView::Element { tag, attrs, children, self_closing } => NodeView::Element {
            tag: value_of(tag),
            attrs: attrs.map_values(|a: (Seq<char>, AttrValueView)| read_back_attr(a)),
            children: read_back_all(children),
            self_closing,
        },
        NodeView::Text(t) => NodeView::Text(value_of(t)),
        NodeView::Fragment(children) => NodeView::Fragment(read_back_all(children)),
        other => other,
    }
}

/// Nodes with their literals read back.
pub open spec fn read_back_all(qs: Seq<NodeView>) -> Seq<NodeView>
    decreases qs, 1nat,
{
    if qs.len() == 0 {
        Seq::empty()
    } else {
        read_back_all(qs.drop_last()).push(read_back(qs.last()))
    }
}

/// An attribute as the generated code names it: an `on:event` attribute by
/// its event.
pub open spec fn event_named_attr(a: (Seq<char>, AttrValueView)) -> (Seq<char>, AttrValueView) {
    match a.1 {
        AttrValueView::Event(_) => (event_type(a.0), a.1),
        _ => a,
    }
}

/// A template node with every event attribute named by its event.
pub open spec fn event_named(n: NodeView) -> NodeView
    decreases n, 0nat,
{
    match n {
        NodeView::Element { tag, attrs, children, self_closing } => NodeView::Element {
            tag,
            attrs: attrs.map_values(|a: (Seq<char>, AttrValueView)| event_named_attr(a)),
            children: event_named_all(children),
            self_closing,
        },
        NodeView::Fragment(children) => NodeView::Fragment(event_named_all(children)),
        other => other,
    }
}

/// Template nodes with their event attributes named by their events.
pub open spec fn event_named_all(ns: Seq<NodeView>) -> Seq<NodeView>
    decreases ns, 1nat,
{
    if ns.len() == 0 {
        Seq::empty()
    } else {
        event_named_all(ns.drop_last()).push(event_named(ns.last()))
    }
}

/// Quoting keeps every string: reading the literals of a quoted node back
/// as the values they stand for gives the node itself, texts, tags,
/// attribute names and static values character for character (an event
/// attribute named by its event).
pub proof fn lemma_quoting_reads_back(n: NodeView, q: NodeView)
    requires
        quoted_as(n, q),
    ensures
        read_back(q) == event_named(n),
    decreases n, 0nat,
{
    match n {
        NodeView::Element { tag, attrs, children, self_closing } => {
            let qa = q->Element_attrs;
            let qc = q->Element_children;
            lemma_quoting_reads_back_all(children, qc);
            let x = qa.map_values(|a: (Seq<char>, AttrValueView)| read_back_attr(a));
            let y = attrs.map_values(|a: (Seq<char>, AttrValueView)| event_named_attr(a));
            assert forall|i: int| 0 <= i < x.len() implies x[i] == y[i] by {
                assert(attr_quoted_as(attrs[i], qa[i]));
            }
            assert(x =~= y);
        },
        NodeView::Fragment(children) => {
            lemma_quoting_reads_back_all(children, q->Fragment_0);
        },
        _ => {},
    }
}

/// Quoting nodes keeps every string of each of them.
pub proof fn lemma_quoting_reads_back_all(ns: Seq<NodeView>, qs: Seq<NodeView>)
    requires
        quoted_all_as(ns, qs),
    ensures
        read_back_all(qs) == event_named_all(ns),
    decreases ns, 1nat,
{
    if ns.len() > 0 {
        lemma_quoting_reads_back_all(ns.drop_last(), qs.drop_last());
        lemma_quoting_reads_back(ns.last(), qs.last());
    }
}

/// The builder call that adds attribute `a` to an element; its name and
/// static value are Rust string literals already.
pub open spec fn attr_code(a: (Seq<char>, AttrValueView)) -> Seq<char> {
    match a.1 {
        AttrValueView::Static(v) => ".attr("@ + a.0 + ", "@ + v + ")"@,
        AttrValueView::Dynamic(e) => ".attr("@ + a.0 + ", &("@ + e + ").to_string())"@,
        AttrValueView::Event(e) => ".on("@ + a.0 + ", "@ + e + ")"@,
        AttrValueView::Bool => ".attr("@ + a.0 + ", \"\")"@,
    }
}

/// The builder calls for the first `k` attributes, in order.
pub open spec fn attrs_code(attrs: Seq<(Seq<char>, AttrValueView)>, k: int) -> Seq<char>
    decreases k,
{
    if k <= 0 || k > attrs.len() {
        Seq::empty()
    } else {
        attrs_code(attrs, k - 1) + attr_code(attrs[k - 1])
    }
}

/// The expression that builds the VNode of `n`, whose strings are Rust
/// string literals already.
pub open spec fn node_expression(n: NodeView) -> Seq<char>
    decreases n, 0nat,
{
    match n {
        NodeView::Element { tag, attrs, children, self_closing } => "rue_core::node::VNode::element("@
            + tag + ")"@ + attrs_code(attrs, attrs.len() as int) + if children.len()
            > 0 && !self_closing {
            ".children(::std::vec!["@ + expressions(children) + "])"@
        } else {
            Seq::empty()
        } + ".build()"@,
        NodeView::Text(t) => "rue_core::node::VNode::text("@ + t + ")"@,
        NodeView::Expr(e) => "{ let __val = ("@ + e + "); rue_core::node::VNode::text(&__val.to_string()) }"@,
        NodeView::VNodeExpr(e) => "{ let __vnode: rue_core::node::VNode = ("@ + e + "); __vnode }"@,
        NodeView::Fragment(children) => "rue_core::node::VNode::fragment(::std::vec!["@ + expressions(children)
            + "])"@,
    }
}

/// The expressions of the nodes, separated by commas.
pub open spec fn expressions(ns: Seq<NodeView>) -> Seq<char>
    decreases ns, 1nat,
{
    if ns.len() == 0 {
        Seq::empty()
    } else if ns.len() == 1 {
        node_expression(ns[0])
    } else {
        expressions(ns.drop_last()) + ", "@ + node_expression(ns.last())
    }
}

/// The statement that adds the VNode of `n` to `__rue_children`: exactly
/// one value, a fragment holding its children for a fragment.
pub open spec fn node_statement(n: NodeView) -> Seq<char> {
    "__rue_children.push("@ + node_expression(n) + "); "@
}

/// The statements of the nodes, in order.
pub open spec fn statements(ns: Seq<NodeView>) -> Seq<char>
    decreases ns, 1nat,
{
    if ns.len() == 0 {
        Seq::empty()
    } else {
        statements(ns.drop_last()) + node_statement(ns.last())
    }
}

/// The block an `html!` template expands to: it collects the nodes' VNodes
/// and yields the only one, or a fragment of all of them.
pub open spec fn template_code(ns: Seq<NodeView>) -> Seq<char> {
    "{ let mut __rue_children: ::std::vec::Vec<rue_core::node::VNode> = ::std::vec::Vec::new(); "@
        + statements(ns)
        + "if __rue_children.len() == 1 { __rue_children.into_iter().next().unwrap() } else { rue_core::node::VNode::fragment(__rue_children) } }"@
}

// ---------------------------------------------------------------------------
// Generating the code
// ---------------------------------------------------------------------------

/// The event of an `on:event` attribute name (the name itself otherwise).
fn strip_on(name: &String) -> (r: String)
    ensures
        r@ == event_type(name@),
{
    let s = name.as_str();
    let n = s.unicode_len();
    if n >= 3 && s.get_char(0) == 'o' && s.get_char(1) == 'n' && s.get_char(2) == ':' {
        String::from_str(s.substring_char(3, n))
    } else {
        name.clone()
    }
}

/// `attr` with its name (for an event, the event's name) and static value
/// written as Rust string literals.
fn quote_attr(attr: &HtmlAttr) -> (r: HtmlAttr)
    ensures
        attr_quoted_as((attr.name@, attr_value_view(attr.value)), (r.name@, attr_value_view(r.value))),
{
    match &attr.value {
        HtmlAttrValue::Static(v) => HtmlAttr {
            name: string_literal(attr.name.as_str()),
            value: HtmlAttrValue::Static(string_literal(v.as_str())),
        },
        HtmlAttrValue::Dynamic(e) => HtmlAttr {
            name: string_literal(attr.name.as_str()),
            value: HtmlAttrValue::Dynamic(e.clone()),
        },
        HtmlAttrValue::Event(e) => {
            let event = strip_on(&attr.name);
            HtmlAttr { name: string_literal(event.as_str()), value: HtmlAttrValue::Event(e.clone()) }
        },
        HtmlAttrValue::Bool => HtmlAttr { name: string_literal(attr.name.as_str()), value: HtmlAttrValue::Bool },
    }
}

/// The nodes, each with its strings written as Rust string literals.
fn quote_all(ns: &Vec<HtmlNode>) -> (r: Vec<HtmlNode>)
    ensures
        quoted_all_as(nodes_view(ns@), nodes_view(r@)),
    decreases ns@,
{
    proof {
        lemma_nodes_view(ns@);
    }
    let mut out: Vec<HtmlNode> = Vec::new();
    let mut i: usize = 0;
    while i < ns.len()
        invariant
            i <= ns@.len(),
            out@.len() == i,
            nodes_view(ns@).len() == ns@.len(),
            forall|j: int| 0 <= j < ns@.len() ==> #[trigger] nodes_view(ns@)[j] == node_view(ns@[j]),
            forall|j: int| 0 <= j < i ==> quoted_as(node_view(ns@[j]), node_view(#[trigger] out@[j])),
        decreases ns@.len() - i,
    {
        let q = ns[i].quote_literals();
        out.push(q);
        i = i + 1;
    }
    proof {
        lemma_nodes_view(out@);
        lemma_quoted_all_as(nodes_view(ns@), nodes_view(out@));
        assert forall|j: int| 0 <= j < ns@.len() implies #[trigger] quoted_as(nodes_view(ns@)[j], nodes_view(out@)[j]) by {
            assert(quoted_as(node_view(ns@[j]), node_view(out@[j])));
        }
    }
    out
}

impl HtmlNode {
    /// This node with its tags, attribute names (for events, the event's
    /// name), static values and texts written as Rust string literals.
    pub fn quote_literals(&self) -> (r: HtmlNode)
        ensures
            quoted_as(node_view(*self), node_view(r)),
        decreases *self,
    {
        match self {
            HtmlNode::Element { tag, attrs, children, self_closing } => {
                let mut qa: Vec<HtmlAttr> = Vec::new();
                let mut i: usize = 0;
                proof {
                    lemma_attrs_view(attrs@, attrs@.len() as int);
                }
                while i < attrs.len()
                    invariant
                        i <= attrs@.len(),
                        qa@.len() == i,
                        attrs_view(attrs@, attrs@.len() as int).len() == attrs@.len(),
                        forall|j: int|
                            0 <= j < attrs@.len() ==> #[trigger] attrs_view(attrs@, attrs@.len() as int)[j] == (
                                attrs@[j].name@,
                                attr_value_view(attrs@[j].value),
                            ),
                        forall|j: int|
                            0 <= j < i ==> #[trigger] attr_quoted_as(
                                (attrs@[j].name@, attr_value_view(attrs@[j].value)),
                                (qa@[j].name@, attr_value_view(qa@[j].value)),
                            ),
                    decreases attrs@.len() - i,
                {
                    let q = quote_attr(&attrs[i]);
                    qa.push(q);
                    i = i + 1;
                }
                let qc = quote_all(children);
                proof {
                    lemma_attrs_view(qa@, qa@.len() as int);
                    let va = attrs_view(attrs@, attrs@.len() as int);
                    let vq = attrs_view(qa@, qa@.len() as int);
                    assert forall|j: int| 0 <= j < va.len() implies #[trigger] attr_quoted_as(va[j], vq[j]) by {
                        assert(attr_quoted_as(
                            (attrs@[j].name@, attr_value_view(attrs@[j].value)),
                            (qa@[j].name@, attr_value_view(qa@[j].value)),
                        ));
                    }
                }
                HtmlNode::Element { tag: string_literal(tag.as_str()), attrs: qa, children: qc, self_closing: *self_closing }
            },
            HtmlNode::Text(t) => HtmlNode::Text(string_literal(t.as_str())),
            HtmlNode::Fragment(children) => HtmlNode::Fragment(quote_all(children)),
            HtmlNode::Expr(e) => HtmlNode::Expr(e.clone()),
            HtmlNode::VNodeExpr(e) => HtmlNode::VNodeExpr(e.clone()),
        }
    }
}

/// The builder call that adds `attr` (name and static value already Rust
/// string literals) to an element.
fn attr_to_code(attr: &HtmlAttr) -> (r: String)
    ensures
        r@ == attr_code((attr.name@, attr_value_view(attr.value))),
{
    let mut out = String::new();
    match &attr.value {
        HtmlAttrValue::Static(v) => {
            out.append(".attr(");
            out.append(attr.name.as_str());
            out.append(", ");
            out.append(v.as_str());
            out.append(")");
        },
        HtmlAttrValue::Dynamic(e) => {
            out.append(".attr(");
            out.append(attr.name.as_str());
            out.append(", &(");
            out.append(e.as_str());
            out.append(").to_string())");
        },
        HtmlAttrValue::Event(e) => {
            out.append(".on(");
            out.append(attr.name.as_str());
            out.append(", ");
            out.append(e.as_str());
            out.append(")");
        },
        HtmlAttrValue::Bool => {
            out.append(".attr(");
            out.append(attr.name.as_str());
            out.append(", \"\")");
        },
    }
    proof {
        assert(out@ =~= attr_code((attr.name@, attr_value_view(attr.value))));
    }
    out
}

impl HtmlNode {
    /// Generate an expression that evaluates to this node's VNode.
    pub fn as_expression(&self) -> (r: String)
        ensures
            exists|q: NodeView| quoted_as(node_view(*self), q) && r@ == node_expression(q),
    {
        let q = self.quote_literals();
        let r = q.expression_code();
        assert(quoted_as(node_view(*self), node_view(q)) && r@ == node_expression(node_view(q)));
        r
    }

    /// Generate a statement that pushes this node's VNode to `__rue_children`.
    pub fn as_statement(&self) -> (r: String)
        ensures
            exists|q: NodeView| quoted_as(node_view(*self), q) && r@ == node_statement(q),
    {
        let q = self.quote_literals();
        let r = q.statement_code();
        assert(quoted_as(node_view(*self), node_view(q)) && r@ == node_statement(node_view(q)));
        r
    }

    /// The expression that evaluates to this node's VNode, when its tags,
    /// attribute names, static values and texts are Rust string literals
    /// already (as [`HtmlNode::quote_literals`] writes them).
    pub fn expression_code(&self) -> (r: String)
        ensures
            r@ == node_expression(node_view(*self)),
        decreases *self,
    {
        match self {
            HtmlNode::Element { tag, attrs, children, self_closing } => {
                let mut out = String::from_str("rue_core::node::VNode::element(");
                out.append(tag.as_str());
                out.append(")");
                let ghost head = out@;
                let mut i: usize = 0;
                proof {
                    lemma_attrs_view(attrs@, attrs@.len() as int);
                }
                while i < attrs.len()
                    invariant
                        i <= attrs@.len(),
                        out@ == head + attrs_code(attrs_view(attrs@, attrs@.len() as int), i as int),
                        attrs_view(attrs@, attrs@.len() as int).len() == attrs@.len(),
                        forall|j: int| 0 <= j < attrs@.len() ==> #[trigger] attrs_view(attrs@, attrs@.len() as int)[j] == (attrs@[j].name@, attr_value_view(attrs@[j].value)),
                    decreases attrs@.len() - i,
                {
                    let code = attr_to_code(&attrs[i]);
                    out.append(code.as_str());
                    i = i + 1;
                }
                if children.len() > 0 && !*self_closing {
                    out.append(".children(::std::vec![");
                    let joined = expressions_of(children);
                    out.append(joined.as_str());
                    out.append("])");
                }
                out.append(".build()");
                proof {
                    assert(out@ =~= node_expression(node_view(*self)));
                }
                out
            },
            HtmlNode::Text(text) => {
                let mut out = String::from_str("rue_core::node::VNode::text(");
                out.append(text.as_str());
                out.append(")");
                proof {
                    assert(out@ =~= node_expression(node_view(*self)));
                }
                out
            },
            HtmlNode::Expr(e) => {
                let mut out = String::from_str("{ let __val = (");
                out.append(e.as_str());
                out.append("); rue_core::node::VNode::text(&__val.to_string()) }");
                proof {
                    assert(out@ =~= node_expression(node_view(*self)));
                }
                out
            },
            HtmlNode::VNodeExpr(e) => {
                let mut out = String::from_str("{ let __vnode: rue_core::node::VNode = (");
                out.append(e.as_str());
                out.append("); __vnode }");
                proof {
                    assert(out@ =~= node_expression(node_view(*self)));
                }
                out
            },
            HtmlNode::Fragment(children) => {
                let mut out = String::from_str("rue_core::node::VNode::fragment(::std::vec![");
                let joined = expressions_of(children);
                out.append(joined.as_str());
                out.append("])");
                proof {
                    assert(out@ =~= node_expression(node_view(*self)));
                }
                out
            },
        }
    }

    /// The statement that pushes this node's VNode to `__rue_children`, when
    /// its strings are Rust string literals already.
    pub fn statement_code(&self) -> (r: String)
        ensures
            r@ == node_statement(node_view(*self)),
    {
        let mut out = String::from_str("__rue_children.push(");
        let e = self.expression_code();
        out.append(e.as_str());
        out.append("); ");
        proof {
            assert(out@ =~= node_statement(node_view(*self)));
        }
        out
    }
}

/// The expressions of the nodes, separated by commas.
fn expressions_of(ns: &Vec<HtmlNode>) -> (r: String)
    ensures
        r@ == expressions(nodes_view(ns@)),
    decreases ns@,
{
    proof {
        lemma_nodes_view(ns@);
    }
    let mut out = String::new();
    let mut i: usize = 0;
    while i < ns.len()
        invariant
            i <= ns@.len(),
            nodes_view(ns@).len() == ns@.len(),
            forall|j: int| 0 <= j < ns@.len() ==> #[trigger] nodes_view(ns@)[j] == node_view(ns@[j]),
            out@ == expressions(nodes_view(ns@).take(i as int)),
        decreases ns@.len() - i,
    {
        let e = ns[i].expression_code();
        let ghost vs = nodes_view(ns@);
        proof {
            assert(vs.take(i + 1).drop_last() =~= vs.take(i as int));
        }
        if i > 0 {
            out.append(", ");
        } else {
            proof {
                assert(vs.take(0) =~= Seq::<NodeView>::empty());
            }
        }
        out.append(e.as_str());
        i = i + 1;
    }
    proof {
        assert(nodes_view(ns@).take(ns@.len() as int) =~= nodes_view(ns@));
    }
    out
}

/// The statements of the nodes, in order.
fn statements_of(ns: &Vec<HtmlNode>) -> (r: String)
    ensures
        r@ == statements(nodes_view(ns@)),
    decreases ns@,
{
    proof {
        lemma_nodes_view(ns@);
    }
    let mut out = String::new();
    let mut i: usize = 0;
    while i < ns.len()
        invariant
            i <= ns@.len(),
            nodes_view(ns@).len() == ns@.len(),
            forall|j: int| 0 <= j < ns@.len() ==> #[trigger] nodes_view(ns@)[j] == node_view(ns@[j]),
            out@ == statements(nodes_view(ns@).take(i as int)),
        decreases ns@.len() - i,
    {
        let st = ns[i].statement_code();
        let ghost vs = nodes_view(ns@);
        proof {
            assert(vs.take(i + 1).drop_last() =~= vs.take(i as int));
        }
        out.append(st.as_str());
        i = i + 1;
    }
    proof {
        assert(nodes_view(ns@).take(ns@.len() as int) =~= nodes_view(ns@));
    }
    out
}

impl HtmlTemplate {
    /// The block this template expands to.
    pub fn to_code(&self) -> (r: String)
        ensures
            exists|qs: Seq<NodeView>| quoted_all_as(nodes_view(self.nodes@), qs) && r@ == template_code(qs),
    {
        let quoted = HtmlTemplate { nodes: quote_all(&self.nodes) };
        let r = quoted.code();
        assert(quoted_all_as(nodes_view(self.nodes@), nodes_view(quoted.nodes@)) && r@ == template_code(
            nodes_view(quoted.nodes@),
        ));
        r
    }

    /// The block this template expands to, when the strings of its nodes
    /// are Rust string literals already.
    pub fn code(&self) -> (r: String)
        ensures
            r@ == template_code(nodes_view(self.nodes@)),
    {
        let mut out = String::from_str(
            "{ let mut __rue_children: ::std::vec::Vec<rue_core::node::VNode> = ::std::vec::Vec::new(); ",
        );
        let stmts = statements_of(&self.nodes);
        out.append(stmts.as_str());
        out.append(
            "if __rue_children.len() == 1 { __rue_children.into_iter().next().unwrap() } else { rue_core::node::VNode::fragment(__rue_children) } }",
        );
        out
    }
}

} // verus!
