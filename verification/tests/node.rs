use std::collections::BTreeMap;

use rue_core::node::children::patch_children;
use rue_core::node::mount::{is_svg, mount_to_dom};
use rue_core::node::patch::{patch_attributes, patch_event_listeners, patch_node};
use rue_core::node::{DomOp, EventHandler, Plan, VElement, VNode, VNodeType};

fn s(x: &str) -> String {
    x.to_string()
}

fn element(v: &VNode) -> &VElement {
    match v {
        VNode::Element(el) => el,
        other => panic!("not an element: {:?}", other),
    }
}

fn keyed_li(key: &str, text: &str) -> VNode {
    VNode::element("li").key(key).text(text).build()
}

// ---------------------------------------------------------------------------
// Building nodes
// ---------------------------------------------------------------------------

#[test]
fn builder_collects_everything_in_order() {
    let v = VNode::element("div")
        .attr("title", "t")
        .class("c")
        .id("i")
        .key("k")
        .on("click", EventHandler::new(7))
        .child(VNode::text("a"))
        .children(vec![VNode::empty(), VNode::dynamic(4)])
        .text("b")
        .build();
    let el = element(&v);
    assert_eq!(el.tag, "div");
    assert_eq!(el.attrs, vec![(s("title"), s("t")), (s("class"), s("c")), (s("id"), s("i"))]);
    assert_eq!(el.events, vec![(s("click"), EventHandler(7))]);
    assert_eq!(el.children.len(), 4);
    assert!(matches!(&el.children[0], VNode::Text(t, None) if t == "a"));
    assert!(matches!(el.children[1], VNode::Empty));
    assert!(matches!(el.children[2], VNode::Dynamic(4, None)));
    assert!(matches!(&el.children[3], VNode::Text(t, None) if t == "b"));
    assert_eq!(el.key, Some(s("k")));
    assert_eq!(el.dom_ref, None);
    assert!(el.listener_closures.is_empty());
    assert_eq!(v.key(), Some("k"));
}

#[test]
fn node_types() {
    assert_eq!(VNode::element("p").build().node_type(), VNodeType::Element(s("p")));
    assert_eq!(VNode::text("x").node_type(), VNodeType::Text);
    assert_eq!(VNode::fragment(vec![]).node_type(), VNodeType::Fragment);
    assert_eq!(VNode::dynamic(1).node_type(), VNodeType::Dynamic);
    assert_eq!(VNode::empty().node_type(), VNodeType::Empty);
}

#[test]
fn same_type_agrees_with_node_type() {
    let nodes = vec![
        VNode::element("div").build(),
        VNode::element("div").class("other").build(),
        VNode::element("span").build(),
        VNode::text("a"),
        VNode::text("b"),
        VNode::fragment(vec![VNode::text("c")]),
        VNode::fragment(vec![]),
        VNode::dynamic(1),
        VNode::dynamic(2),
        VNode::empty(),
    ];
    for a in &nodes {
        for b in &nodes {
            assert_eq!(a.same_type(b), a.node_type() == b.node_type());
        }
    }
    assert!(nodes[0].same_type(&nodes[1]));
    assert!(!nodes[0].same_type(&nodes[2]));
    assert!(nodes[3].same_type(&nodes[4]));
    assert!(!nodes[3].same_type(&nodes[9]));
}

#[test]
fn only_elements_carry_keys() {
    assert_eq!(VNode::element("li").key("a").build().key(), Some("a"));
    assert_eq!(VNode::element("li").build().key(), None);
    assert_eq!(VNode::text("a").key(), None);
    assert_eq!(VNode::fragment(vec![keyed_li("a", "A")]).key(), None);
}

#[test]
fn dom_node_is_recorded_where_a_node_has_one() {
    let mut t = VNode::text("a");
    assert_eq!(t.dom_node(), None);
    t.set_dom_node(5);
    assert_eq!(t.dom_node(), Some(5));

    let mut e = VNode::element("div").build();
    e.set_dom_node(6);
    assert_eq!(e.dom_node(), Some(6));

    let mut d = VNode::dynamic(3);
    d.set_dom_node(7);
    assert_eq!(d.dom_node(), Some(7));

    let mut f = VNode::fragment(vec![VNode::text("x")]);
    f.set_dom_node(8);
    assert_eq!(f.dom_node(), None);

    let mut n = VNode::empty();
    n.set_dom_node(9);
    assert_eq!(n.dom_node(), None);
}

#[test]
fn keyed_children_lists_positions_of_keyed_children() {
    let v = VNode::element("ul")
        .child(keyed_li("a", "A"))
        .child(VNode::text("plain"))
        .child(keyed_li("b", "B"))
        .child(VNode::element("li").build())
        .build();
    let kc = v.keyed_children();
    assert_eq!(kc.len(), 2);
    assert_eq!(kc[0].0, 0);
    assert_eq!(kc[0].1.key(), Some("a"));
    assert_eq!(kc[1].0, 2);
    assert_eq!(kc[1].1.key(), Some("b"));
    assert!(VNode::text("x").keyed_children().is_empty());
}

// ---------------------------------------------------------------------------
// Mounting
// ---------------------------------------------------------------------------

#[test]
fn mount_element_with_attribute_listener_and_text() {
    let mut v = VNode::element("div").class("c").on("click", EventHandler::new(7)).text("hi").build();
    let mut plan = Plan::new(100);
    let root = mount_to_dom(&mut v, 1, None, &mut plan);
    assert_eq!(root, Some(100));
    assert_eq!(
        plan.ops,
        vec![
            DomOp::CreateElement { node: 100, tag: s("div"), svg: false },
            DomOp::SetAttribute { node: 100, name: s("class"), value: s("c") },
            DomOp::AddListener { node: 100, event: s("click"), handler: 7, listener: 101 },
            DomOp::CreateText { node: 102, text: s("hi") },
            DomOp::AppendChild { parent: 100, child: 102 },
            DomOp::AppendChild { parent: 1, child: 100 },
        ]
    );
    assert_eq!(plan.next_id, 103);
    let el = element(&v);
    assert_eq!(el.dom_ref, Some(100));
    assert_eq!(el.listener_closures, vec![(s("click"), 101)]);
    assert_eq!(el.children[0].dom_node(), Some(102));
}

#[test]
fn mount_before_anchor() {
    let mut v = VNode::text("x");
    let mut plan = Plan::new(100);
    let root = mount_to_dom(&mut v, 1, Some(9), &mut plan);
    assert_eq!(root, Some(100));
    assert_eq!(
        plan.ops,
        vec![
            DomOp::CreateText { node: 100, text: s("x") },
            DomOp::InsertBefore { parent: 1, child: 100, anchor: 9 },
        ]
    );
}

#[test]
fn mount_svg_children_stay_in_svg_namespace() {
    assert!(is_svg(&s("svg")));
    assert!(!is_svg(&s("div")));
    let mut v = VNode::element("svg").child(VNode::element("circle").build()).build();
    let mut plan = Plan::new(100);
    mount_to_dom(&mut v, 1, None, &mut plan);
    assert_eq!(
        plan.ops,
        vec![
            DomOp::CreateElement { node: 100, tag: s("svg"), svg: true },
            DomOp::CreateElement { node: 101, tag: s("circle"), svg: true },
            DomOp::AppendChild { parent: 100, child: 101 },
            DomOp::AppendChild { parent: 1, child: 100 },
        ]
    );
}

#[test]
fn mount_fragment_returns_first_child() {
    let mut v = VNode::fragment(vec![VNode::empty(), VNode::text("a"), VNode::text("b")]);
    let mut plan = Plan::new(100);
    let root = mount_to_dom(&mut v, 1, None, &mut plan);
    assert_eq!(root, Some(100));
    assert_eq!(
        plan.ops,
        vec![
            DomOp::CreateText { node: 100, text: s("a") },
            DomOp::AppendChild { parent: 1, child: 100 },
            DomOp::CreateText { node: 101, text: s("b") },
            DomOp::AppendChild { parent: 1, child: 101 },
        ]
    );
    assert_eq!(plan.next_id, 102);
}

#[test]
fn mount_empty_plans_nothing() {
    let mut v = VNode::empty();
    let mut plan = Plan::new(100);
    assert_eq!(mount_to_dom(&mut v, 1, None, &mut plan), None);
    assert!(plan.ops.is_empty());
    assert_eq!(plan.next_id, 100);
}

#[test]
fn mount_dynamic_binds_a_slot() {
    let mut v = VNode::dynamic(3);
    let mut plan = Plan::new(100);
    assert_eq!(mount_to_dom(&mut v, 1, None, &mut plan), Some(100));
    assert_eq!(
        plan.ops,
        vec![DomOp::MountDynamic { render: 3, parent: 1, anchor: None, svg: false, slot: 100 }]
    );
    assert_eq!(v.dom_node(), Some(100));
}

#[test]
fn identifiers_wrap_around() {
    let mut v = VNode::fragment(vec![VNode::text("a"), VNode::text("b")]);
    let mut plan = Plan::new(u64::MAX);
    mount_to_dom(&mut v, 1, None, &mut plan);
    assert_eq!(
        plan.ops,
        vec![
            DomOp::CreateText { node: u64::MAX, text: s("a") },
            DomOp::AppendChild { parent: 1, child: u64::MAX },
            DomOp::CreateText { node: 0, text: s("b") },
            DomOp::AppendChild { parent: 1, child: 0 },
        ]
    );
    assert_eq!(plan.next_id, 1);
}

// ---------------------------------------------------------------------------
// Patching
// ---------------------------------------------------------------------------

fn mounted(mut v: VNode, parent: u64, first: u64) -> VNode {
    let mut plan = Plan::new(first);
    mount_to_dom(&mut v, parent, None, &mut plan);
    v
}

#[test]
fn text_nodes_update_in_place() {
    let old = mounted(VNode::text("a"), 1, 100);
    let mut new = VNode::text("b");
    let mut plan = Plan::new(200);
    let root = patch_node(&old, &mut new, 1, None, &mut plan);
    assert_eq!(root, Some(100));
    assert_eq!(plan.ops, vec![DomOp::SetText { node: 100, text: s("b") }]);
    assert_eq!(new.dom_node(), Some(100));
    assert_eq!(plan.next_id, 200);

    // Unchanged text plans nothing.
    let mut same = VNode::text("b");
    let mut plan = Plan::new(200);
    patch_node(&new, &mut same, 1, None, &mut plan);
    assert!(plan.ops.is_empty());
}

#[test]
fn patch_element_reuses_its_node_and_diffs_attributes() {
    let old = mounted(VNode::element("div").attr("a", "1").attr("b", "2").build(), 1, 100);
    let mut new = VNode::element("div").attr("a", "1").attr("b", "3").attr("c", "4").build();
    let mut plan = Plan::new(200);
    let root = patch_node(&old, &mut new, 1, None, &mut plan);
    assert_eq!(root, Some(100));
    assert_eq!(
        plan.ops,
        vec![
            DomOp::SetAttribute { node: 100, name: s("b"), value: s("3") },
            DomOp::SetAttribute { node: 100, name: s("c"), value: s("4") },
        ]
    );
    assert_eq!(new.dom_node(), Some(100));
}

#[test]
fn patch_attributes_removes_dropped_names() {
    let old = VNode::element("div").attr("a", "1").attr("b", "2").build();
    let new = VNode::element("div").attr("b", "2").build();
    let mut plan = Plan::new(0);
    patch_attributes(element(&old), element(&new), 5, &mut plan);
    assert_eq!(plan.ops, vec![DomOp::RemoveAttribute { node: 5, name: s("a") }]);
}

#[test]
fn patch_event_listeners_replaces_changed_handlers() {
    let old = mounted(
        VNode::element("button").on("click", EventHandler::new(1)).on("focus", EventHandler::new(2)).build(),
        1,
        100,
    );
    // listeners: click -> 101, focus -> 102
    assert_eq!(element(&old).listener_closures, vec![(s("click"), 101), (s("focus"), 102)]);
    let mut new = VNode::element("button").on("click", EventHandler::new(3)).on("input", EventHandler::new(4)).build();
    let mut plan = Plan::new(200);
    if let VNode::Element(new_el) = &mut new {
        patch_event_listeners(element(&old), new_el, 100, &mut plan);
    }
    assert_eq!(
        plan.ops,
        vec![
            DomOp::RemoveListener { node: 100, event: s("click"), listener: 101 },
            DomOp::AddListener { node: 100, event: s("click"), handler: 3, listener: 200 },
            DomOp::RemoveListener { node: 100, event: s("focus"), listener: 102 },
            DomOp::AddListener { node: 100, event: s("input"), handler: 4, listener: 201 },
        ]
    );
    assert_eq!(element(&new).listener_closures, vec![(s("click"), 200), (s("input"), 201)]);
    assert_eq!(plan.next_id, 202);
}

#[test]
fn unchanged_handlers_keep_their_listener() {
    let old = mounted(VNode::element("button").on("click", EventHandler::new(1)).build(), 1, 100);
    let mut new = VNode::element("button").on("click", EventHandler::new(1)).build();
    let mut plan = Plan::new(200);
    patch_node(&old, &mut new, 1, None, &mut plan);
    assert!(plan.ops.is_empty());
    assert_eq!(element(&new).listener_closures, vec![(s("click"), 101)]);
}

#[test]
fn different_types_are_replaced() {
    let old = mounted(VNode::element("div").build(), 1, 100);
    let mut new = VNode::element("span").build();
    let mut plan = Plan::new(200);
    let root = patch_node(&old, &mut new, 1, None, &mut plan);
    assert_eq!(root, Some(200));
    assert_eq!(
        plan.ops,
        vec![
            DomOp::RemoveChild { parent: 1, child: 100 },
            DomOp::CreateElement { node: 200, tag: s("span"), svg: false },
            DomOp::AppendChild { parent: 1, child: 200 },
        ]
    );
}

#[test]
fn empty_transitions() {
    // empty -> empty: nothing
    let mut plan = Plan::new(200);
    let mut new = VNode::empty();
    assert_eq!(patch_node(&VNode::empty(), &mut new, 1, None, &mut plan), None);
    assert!(plan.ops.is_empty());

    // empty -> text: mount
    let mut new = VNode::text("t");
    assert_eq!(patch_node(&VNode::empty(), &mut new, 1, Some(7), &mut plan), Some(200));
    assert_eq!(
        plan.ops,
        vec![
            DomOp::CreateText { node: 200, text: s("t") },
            DomOp::InsertBefore { parent: 1, child: 200, anchor: 7 },
        ]
    );

    // text -> empty: remove
    let mut plan = Plan::new(300);
    let mut gone = VNode::empty();
    assert_eq!(patch_node(&new, &mut gone, 1, None, &mut plan), None);
    assert_eq!(plan.ops, vec![DomOp::RemoveChild { parent: 1, child: 200 }]);
}

#[test]
fn dynamic_nodes_are_re_rendered() {
    let old = mounted(VNode::dynamic(3), 1, 100);
    let mut new = VNode::dynamic(4);
    let mut plan = Plan::new(200);
    assert_eq!(patch_node(&old, &mut new, 1, None, &mut plan), Some(200));
    assert_eq!(
        plan.ops,
        vec![
            DomOp::RemoveChild { parent: 1, child: 100 },
            DomOp::MountDynamic { render: 4, parent: 1, anchor: None, svg: false, slot: 200 },
        ]
    );
    assert_eq!(new.dom_node(), Some(200));
}

#[test]
fn unkeyed_children_patch_by_position() {
    // ul 100: li 101 (text 102), li 103 (text 104), li 105 (text 106)
    let old = mounted(
        VNode::element("ul")
            .child(VNode::element("li").text("a").build())
            .child(VNode::element("li").text("b").build())
            .child(VNode::element("li").text("c").build())
            .build(),
        1,
        100,
    );
    let mut new = VNode::element("ul")
        .child(VNode::element("li").text("a").build())
        .child(VNode::element("li").text("B").build())
        .build();
    let mut plan = Plan::new(200);
    patch_node(&old, &mut new, 1, None, &mut plan);
    assert_eq!(
        plan.ops,
        vec![
            DomOp::SetText { node: 104, text: s("B") },
            DomOp::RemoveChild { parent: 100, child: 105 },
        ]
    );

    // Growing appends the extra children.
    let mut grown = VNode::element("ul")
        .child(VNode::element("li").text("a").build())
        .child(VNode::element("li").text("B").build())
        .child(VNode::text("d"))
        .build();
    let mut plan = Plan::new(300);
    patch_node(&new, &mut grown, 1, None, &mut plan);
    assert_eq!(
        plan.ops,
        vec![DomOp::CreateText { node: 300, text: s("d") }, DomOp::AppendChild { parent: 100, child: 300 }]
    );
}

#[test]
fn keyed_children_reuse_nodes_by_key() {
    // ul 10: li a 11 (text 12), li b 13 (text 14), li c 15 (text 16)
    let old = mounted(
        VNode::element("ul").child(keyed_li("a", "A")).child(keyed_li("b", "B")).child(keyed_li("c", "C")).build(),
        1,
        10,
    );
    let mut new =
        VNode::element("ul").child(keyed_li("a", "A")).child(keyed_li("c", "C2")).child(keyed_li("d", "D")).build();
    let mut plan = Plan::new(100);
    let root = patch_node(&old, &mut new, 1, None, &mut plan);
    assert_eq!(root, Some(10));
    // The children are handled from the last one back.
    assert_eq!(
        plan.ops,
        vec![
            DomOp::RemoveChild { parent: 10, child: 13 },
            DomOp::CreateElement { node: 100, tag: s("li"), svg: false },
            DomOp::CreateText { node: 101, text: s("D") },
            DomOp::AppendChild { parent: 100, child: 101 },
            DomOp::AppendChild { parent: 10, child: 100 },
            DomOp::SetText { node: 16, text: s("C2") },
        ]
    );
    let el = element(&new);
    assert_eq!(el.children[0].dom_node(), Some(11));
    assert_eq!(el.children[1].dom_node(), Some(15));
    assert_eq!(el.children[2].dom_node(), Some(100));
}

#[test]
fn a_new_keyed_child_goes_before_the_next_one() {
    // ul 10: li a 11 (text 12), li b 13 (text 14)
    let old = mounted(VNode::element("ul").child(keyed_li("a", "A")).child(keyed_li("b", "B")).build(), 1, 10);
    let mut new =
        VNode::element("ul").child(keyed_li("c", "C")).child(keyed_li("a", "A")).child(keyed_li("b", "B")).build();
    let mut plan = Plan::new(100);
    patch_node(&old, &mut new, 1, None, &mut plan);
    assert_eq!(
        plan.ops,
        vec![
            DomOp::CreateElement { node: 100, tag: s("li"), svg: false },
            DomOp::CreateText { node: 101, text: s("C") },
            DomOp::AppendChild { parent: 100, child: 101 },
            DomOp::InsertBefore { parent: 10, child: 100, anchor: 11 },
        ]
    );
}

#[test]
fn keyed_children_off_the_stable_run_are_moved() {
    // ul 10: li a 11, li b 13, li c 15
    let old = mounted(
        VNode::element("ul").child(keyed_li("a", "A")).child(keyed_li("b", "B")).child(keyed_li("c", "C")).build(),
        1,
        10,
    );
    let mut new =
        VNode::element("ul").child(keyed_li("c", "C")).child(keyed_li("a", "A")).child(keyed_li("b", "B")).build();
    let mut plan = Plan::new(100);
    patch_node(&old, &mut new, 1, None, &mut plan);
    assert_eq!(plan.ops, vec![DomOp::InsertBefore { parent: 10, child: 15, anchor: 11 }]);
}

#[test]
fn a_removed_fragment_takes_its_nodes_away() {
    // text x 100, fragment: text a 101, text b 102
    let old = vec![
        mounted(VNode::text("x"), 1, 100),
        mounted(VNode::fragment(vec![VNode::text("a"), VNode::text("b")]), 1, 101),
    ];
    let mut new = vec![VNode::text("x")];
    let mut plan = Plan::new(200);
    patch_children(&old, &mut new, 1, &mut plan);
    assert_eq!(
        plan.ops,
        vec![DomOp::RemoveChild { parent: 1, child: 101 }, DomOp::RemoveChild { parent: 1, child: 102 }]
    );
}

#[test]
fn an_element_never_mounted_is_created_in_place() {
    let old = VNode::element("div").build();
    let mut new = VNode::element("div").class("c").build();
    let mut plan = Plan::new(200);
    assert_eq!(patch_node(&old, &mut new, 1, Some(7), &mut plan), Some(200));
    assert_eq!(
        plan.ops,
        vec![
            DomOp::CreateElement { node: 200, tag: s("div"), svg: false },
            DomOp::InsertBefore { parent: 1, child: 200, anchor: 7 },
            DomOp::SetAttribute { node: 200, name: s("class"), value: s("c") },
        ]
    );
}

#[test]
fn mounting_keeps_the_children_in_order() {
    let mut v = VNode::element("div")
        .child(VNode::fragment(vec![VNode::text("a"), VNode::text("b")]))
        .text("c")
        .build();
    let mut plan = Plan::new(100);
    mount_to_dom(&mut v, 1, None, &mut plan);
    assert_eq!(
        plan.ops,
        vec![
            DomOp::CreateElement { node: 100, tag: s("div"), svg: false },
            DomOp::CreateText { node: 101, text: s("a") },
            DomOp::AppendChild { parent: 100, child: 101 },
            DomOp::CreateText { node: 102, text: s("b") },
            DomOp::AppendChild { parent: 100, child: 102 },
            DomOp::CreateText { node: 103, text: s("c") },
            DomOp::AppendChild { parent: 100, child: 103 },
            DomOp::AppendChild { parent: 1, child: 100 },
        ]
    );
}

#[test]
fn keyed_children_in_the_same_order_plan_nothing() {
    let old_children = vec![
        mounted(keyed_li("a", "A"), 10, 100),
        mounted(keyed_li("b", "B"), 10, 200),
    ];
    let mut new_children = vec![keyed_li("a", "A"), keyed_li("b", "B")];
    let mut plan = Plan::new(300);
    patch_children(&old_children, &mut new_children, 10, &mut plan);
    assert!(plan.ops.is_empty());
    assert_eq!(new_children[0].dom_node(), Some(100));
    assert_eq!(new_children[1].dom_node(), Some(200));
}

#[test]
fn fragments_patch_their_children() {
    let old = mounted(VNode::fragment(vec![VNode::text("a"), VNode::text("b")]), 1, 100);
    let mut new = VNode::fragment(vec![VNode::text("a"), VNode::text("c")]);
    let mut plan = Plan::new(200);
    assert_eq!(patch_node(&old, &mut new, 1, None, &mut plan), Some(100));
    assert_eq!(plan.ops, vec![DomOp::SetText { node: 101, text: s("c") }]);
}

#[test]
fn attribute_changes_turn_old_attributes_into_new() {
    let old = VNode::element("a").attr("href", "/x").attr("class", "k").attr("title", "t").build();
    let new = VNode::element("a").attr("class", "k2").attr("href", "/x").attr("rel", "n").build();
    let mut plan = Plan::new(0);
    patch_attributes(element(&old), element(&new), 9, &mut plan);
    let mut attrs: BTreeMap<String, String> =
        element(&old).attrs.iter().cloned().collect();
    for op in &plan.ops {
        match op {
            DomOp::SetAttribute { node: 9, name, value } => {
                attrs.insert(name.clone(), value.clone());
            }
            DomOp::RemoveAttribute { node: 9, name } => {
                attrs.remove(name);
            }
            other => panic!("unexpected operation {:?}", other),
        }
    }
    let expected: BTreeMap<String, String> = element(&new).attrs.iter().cloned().collect();
    assert_eq!(attrs, expected);
    assert_eq!(plan.ops.len(), 3);
}

#[test]
fn re_rendering_an_unchanged_view_plans_nothing() {
    let view = || {
        VNode::element("div")
            .class("c")
            .attr("title", "t")
            .on("click", EventHandler::new(1))
            .child(VNode::element("ul").child(keyed_li("a", "A")).child(keyed_li("b", "B")).build())
            .child(VNode::fragment(vec![VNode::text("x"), VNode::empty()]))
            .build()
    };
    let old = mounted(view(), 1, 100);
    let mut new = view();
    let mut plan = Plan::new(500);
    assert_eq!(patch_node(&old, &mut new, 1, None, &mut plan), Some(100));
    assert!(plan.ops.is_empty());
    assert_eq!(plan.next_id, 500);
    // The new tree took over the DOM nodes and listeners.
    assert_eq!(element(&new).listener_closures, vec![(s("click"), 101)]);
    assert_eq!(element(&new).children[0].dom_node(), Some(102));
}

#[test]
fn a_replaced_child_stays_in_its_place() {
    let old_children = vec![mounted(VNode::text("a"), 10, 100), mounted(VNode::text("b"), 10, 200)];
    let mut new_children = vec![VNode::element("span").build(), VNode::text("b")];
    let mut plan = Plan::new(300);
    patch_children(&old_children, &mut new_children, 10, &mut plan);
    assert_eq!(
        plan.ops,
        vec![
            DomOp::RemoveChild { parent: 10, child: 100 },
            DomOp::CreateElement { node: 300, tag: s("span"), svg: false },
            DomOp::InsertBefore { parent: 10, child: 300, anchor: 200 },
        ]
    );
    assert_eq!(new_children[0].dom_node(), Some(300));
    assert_eq!(new_children[1].dom_node(), Some(200));
}
