use rue_core::template::check::{check_tokens, CheckedKind, CheckedToken};
use rue_core::template::parse::{parse_element, parse_nodes, HtmlTemplate};
use rue_core::template::{component, html, Delimiter, HtmlAttr, HtmlAttrValue, HtmlNode, ParseError, Token, TokenKind};

// ---------------------------------------------------------------------------
// Building token streams by hand
// ---------------------------------------------------------------------------

enum T {
    P(char),
    I(&'static str),
    L(&'static str),
    B(Vec<T>),
}

fn source(t: &T) -> String {
    match t {
        T::P(c) => c.to_string(),
        T::I(s) | T::L(s) => s.to_string(),
        T::B(inner) => {
            let text = inner.iter().map(source).collect::<Vec<_>>().join(" ");
            if text.is_empty() {
                "{ }".to_string()
            } else {
                format!("{{ {} }}", text)
            }
        }
    }
}

fn tokens(items: Vec<T>) -> Vec<Token> {
    let texts: Vec<String> = items.iter().map(source).collect();
    let mut out = Vec::new();
    for (i, item) in items.into_iter().enumerate() {
        let rest = texts[i..].join(" ");
        let kind = match item {
            T::P(c) => TokenKind::Punct(c),
            T::I(s) => TokenKind::Ident(s.to_string()),
            T::L(s) => TokenKind::Literal(s.to_string()),
            T::B(inner) => TokenKind::Group(Delimiter::Brace, tokens(inner)),
        };
        out.push(Token { kind, rest });
    }
    out
}

const OPEN: &str = "{ let mut __rue_children: ::std::vec::Vec<rue_core::node::VNode> = ::std::vec::Vec::new(); ";
const CLOSE: &str = "if __rue_children.len() == 1 { __rue_children.into_iter().next().unwrap() } else { rue_core::node::VNode::fragment(__rue_children) } }";

fn block(statements: &str) -> String {
    format!("{}{}{}", OPEN, statements, CLOSE)
}

// ---------------------------------------------------------------------------
// Parsing
// ---------------------------------------------------------------------------

#[test]
fn element_with_static_attribute_and_text() {
    // <div class="a">"hi"</div>
    let ts = tokens(vec![
        T::P('<'),
        T::I("div"),
        T::I("class"),
        T::P('='),
        T::L("\"a\""),
        T::P('>'),
        T::L("\"hi\""),
        T::P('<'),
        T::P('/'),
        T::I("div"),
        T::P('>'),
    ]);
    let template = HtmlTemplate::parse(&check_tokens(&ts)).unwrap();
    assert_eq!(template.nodes.len(), 1);
    match &template.nodes[0] {
        HtmlNode::Element { tag, attrs, children, self_closing } => {
            assert_eq!(tag, "div");
            assert_eq!(attrs.len(), 1);
            assert_eq!(attrs[0].name, "class");
            assert!(matches!(&attrs[0].value, HtmlAttrValue::Static(v) if v == "a"));
            assert_eq!(children.len(), 1);
            assert!(matches!(&children[0], HtmlNode::Text(t) if t == "hi"));
            assert!(!self_closing);
        }
        _ => panic!("expected an element"),
    }
    assert_eq!(
        html(&ts),
        Ok(block(
            "__rue_children.push(rue_core::node::VNode::element(\"div\").attr(\"class\", \"a\")\
             .children(::std::vec![rue_core::node::VNode::text(\"hi\")]).build()); "
        ))
    );
}

#[test]
fn self_closing_element_with_boolean_and_dashed_attributes() {
    // <input disabled data-id="7"/>
    let ts = tokens(vec![
        T::P('<'),
        T::I("input"),
        T::I("disabled"),
        T::I("data"),
        T::P('-'),
        T::I("id"),
        T::P('='),
        T::L("\"7\""),
        T::P('/'),
        T::P('>'),
    ]);
    assert_eq!(
        html(&ts),
        Ok(block(
            "__rue_children.push(rue_core::node::VNode::element(\"input\").attr(\"disabled\", \"\")\
             .attr(\"data-id\", \"7\").build()); "
        ))
    );
}

#[test]
fn dynamic_attribute_event_and_expressions() {
    // <button title={t} on:click={h}>{count}{vnode child}</button>
    let ts = tokens(vec![
        T::P('<'),
        T::I("button"),
        T::I("title"),
        T::P('='),
        T::B(vec![T::I("t")]),
        T::I("on"),
        T::P(':'),
        T::I("click"),
        T::P('='),
        T::B(vec![T::I("h")]),
        T::P('>'),
        T::B(vec![T::I("count")]),
        T::B(vec![T::I("vnode"), T::I("child")]),
        T::P('<'),
        T::P('/'),
        T::I("button"),
        T::P('>'),
    ]);
    let template = HtmlTemplate::parse(&check_tokens(&ts)).unwrap();
    match &template.nodes[0] {
        HtmlNode::Element { attrs, children, .. } => {
            assert!(matches!(&attrs[0].value, HtmlAttrValue::Dynamic(e) if e == "t"));
            assert_eq!(attrs[1].name, "on:click");
            assert!(matches!(&attrs[1].value, HtmlAttrValue::Event(e) if e == "h"));
            assert!(matches!(&children[0], HtmlNode::Expr(e) if e == "count"));
            assert!(matches!(&children[1], HtmlNode::VNodeExpr(e) if e == "child"));
        }
        _ => panic!("expected an element"),
    }
    assert_eq!(
        html(&ts),
        Ok(block(
            "__rue_children.push(rue_core::node::VNode::element(\"button\")\
             .attr(\"title\", &(t).to_string()).on(\"click\", h)\
             .children(::std::vec![{ let __val = (count); rue_core::node::VNode::text(&__val.to_string()) }, \
             { let __vnode: rue_core::node::VNode = (child); __vnode }]).build()); "
        ))
    );
}

#[test]
fn several_roots_and_fragments() {
    // "a" <>"b"</>
    let ts = tokens(vec![T::L("\"a\""), T::P('<'), T::P('>'), T::L("\"b\""), T::P('<'), T::P('/'), T::P('>')]);
    assert_eq!(
        html(&ts),
        Ok(block(
            "__rue_children.push(rue_core::node::VNode::text(\"a\")); \
             __rue_children.push(rue_core::node::VNode::fragment(::std::vec![rue_core::node::VNode::text(\"b\")])); "
        ))
    );
}

#[test]
fn identifiers_in_text_are_joined_with_spaces() {
    // <p>Hello world</p>
    let ts = tokens(vec![
        T::P('<'),
        T::I("p"),
        T::P('>'),
        T::I("Hello"),
        T::I("world"),
        T::P('<'),
        T::P('/'),
        T::I("p"),
        T::P('>'),
    ]);
    let (node, next) = parse_element(&check_tokens(&ts), 0).unwrap();
    assert_eq!(next, ts.len());
    match node {
        HtmlNode::Element { children, .. } => {
            assert!(matches!(&children[0], HtmlNode::Text(t) if t == "Hello world"));
        }
        _ => panic!("expected an element"),
    }
}

#[test]
fn string_literals_are_escaped_in_the_code() {
    // "say \"hi\""
    let ts = tokens(vec![T::L("\"say \\\"hi\\\"\"")]);
    assert_eq!(
        html(&ts),
        Ok(block("__rue_children.push(rue_core::node::VNode::text(\"say \\\"hi\\\"\")); "))
    );
}

#[test]
fn empty_template_is_an_empty_fragment_block() {
    let ts: Vec<Token> = Vec::new();
    assert_eq!(html(&ts), Ok(block("")));
    let (nodes, pos) = parse_nodes(&check_tokens(&ts), 0, false).unwrap();
    assert!(nodes.is_empty());
    assert_eq!(pos, 0);
}

#[test]
fn keyword_tag_is_not_an_identifier() {
    // <fn></fn>
    let ts = tokens(vec![T::P('<'), T::I("fn"), T::P('>'), T::P('<'), T::P('/'), T::I("fn"), T::P('>')]);
    assert_eq!(html(&ts), Err(ParseError::ExpectedIdent));
}

#[test]
fn braced_text_must_be_an_expression() {
    // { + }
    let ts = tokens(vec![T::B(vec![T::P('+')])]);
    assert_eq!(html(&ts), Err(ParseError::ExpectedExpression));
}

#[test]
fn tokens_after_a_closing_tag_at_top_level_are_unexpected() {
    // </div>
    let ts = tokens(vec![T::P('<'), T::P('/'), T::I("div"), T::P('>')]);
    assert!(html(&ts).is_err());
}

#[test]
fn component_leaves_the_item_unchanged() {
    let item = tokens(vec![T::I("struct"), T::I("Counter"), T::P(';')]);
    let out = component(Vec::new(), item);
    assert_eq!(out.len(), 3);
    assert!(matches!(&out[1].kind, TokenKind::Ident(s) if s == "Counter"));
}

// ---------------------------------------------------------------------------
// What the Rust parser decides, and the grammar on given decisions
// ---------------------------------------------------------------------------

#[test]
fn checking_asks_the_rust_parser() {
    // fn "a\"b" x + { y }
    let ts = tokens(vec![T::I("fn"), T::L("\"a\\\"b\""), T::I("x"), T::P('+'), T::B(vec![T::I("y")])]);
    let checked = check_tokens(&ts);
    assert_eq!(checked.len(), 5);
    assert!(matches!(&checked[0].kind, CheckedKind::Ident(s, false) if s == "fn"));
    assert!(matches!(&checked[1].kind, CheckedKind::Literal(_, Some(v)) if v == "a\"b"));
    assert!(matches!(&checked[2].kind, CheckedKind::Ident(s, true) if s == "x"));
    assert!(matches!(checked[3].kind, CheckedKind::Punct('+')));
    // `x + { y }` is an expression; `+ { y }` is not.
    assert!(checked[2].rest_is_expr);
    assert!(!checked[3].rest_is_expr);
    match &checked[4].kind {
        CheckedKind::Group(Delimiter::Brace, inner) => {
            assert_eq!(inner.len(), 1);
            assert!(inner[0].rest_is_expr);
            assert_eq!(inner[0].rest, "y");
        }
        _ => panic!("expected a braced group"),
    }
}

fn ck(kind: CheckedKind, rest: &str, rest_is_expr: bool) -> CheckedToken {
    CheckedToken { kind, rest: rest.to_string(), rest_is_expr }
}

#[test]
fn grammar_follows_the_given_decisions() {
    // <b>{e}</b>, where the parser is taken to accept `e` as an expression
    // and `b` as an identifier.
    let ts = vec![
        ck(CheckedKind::Punct('<'), "< b > { e } < / b >", false),
        ck(CheckedKind::Ident("b".to_string(), true), "b > { e } < / b >", false),
        ck(CheckedKind::Punct('>'), "> { e } < / b >", false),
        ck(
            CheckedKind::Group(Delimiter::Brace, vec![ck(CheckedKind::Ident("e".to_string(), true), "e", true)]),
            "{ e } < / b >",
            false,
        ),
        ck(CheckedKind::Punct('<'), "< / b >", false),
        ck(CheckedKind::Punct('/'), "/ b >", false),
        ck(CheckedKind::Ident("b".to_string(), true), "b >", false),
        ck(CheckedKind::Punct('>'), ">", false),
    ];
    let template = HtmlTemplate::parse(&ts).unwrap();
    match &template.nodes[0] {
        HtmlNode::Element { tag, children, .. } => {
            assert_eq!(tag, "b");
            assert!(matches!(&children[0], HtmlNode::Expr(e) if e == "e"));
        }
        _ => panic!("expected an element"),
    }

    // The same tokens, where the tag is taken not to be an identifier.
    let mut rejected = ts;
    rejected[1] = ck(CheckedKind::Ident("b".to_string(), false), "b > { e } < / b >", false);
    assert!(matches!(HtmlTemplate::parse(&rejected), Err(ParseError::ExpectedIdent)));
}

#[test]
fn an_empty_brace_is_not_an_expression() {
    let ts = vec![ck(CheckedKind::Group(Delimiter::Brace, vec![]), "{ }", false)];
    assert!(matches!(HtmlTemplate::parse(&ts), Err(ParseError::ExpectedExpression)));
}

// ---------------------------------------------------------------------------
// Code generation
// ---------------------------------------------------------------------------

#[test]
fn quoting_writes_strings_as_rust_literals() {
    let node = HtmlNode::Element {
        tag: "a".to_string(),
        attrs: vec![
            HtmlAttr { name: "href".to_string(), value: HtmlAttrValue::Static("/x\"y".to_string()) },
            HtmlAttr { name: "on:click".to_string(), value: HtmlAttrValue::Event("go".to_string()) },
        ],
        children: vec![HtmlNode::Text("hi".to_string()), HtmlNode::Expr("n".to_string())],
        self_closing: false,
    };
    match node.quote_literals() {
        HtmlNode::Element { tag, attrs, children, self_closing } => {
            assert_eq!(tag, "\"a\"");
            assert_eq!(attrs[0].name, "\"href\"");
            assert!(matches!(&attrs[0].value, HtmlAttrValue::Static(v) if v == "\"/x\\\"y\""));
            assert_eq!(attrs[1].name, "\"click\"");
            assert!(matches!(&attrs[1].value, HtmlAttrValue::Event(e) if e == "go"));
            assert!(matches!(&children[0], HtmlNode::Text(t) if t == "\"hi\""));
            assert!(matches!(&children[1], HtmlNode::Expr(e) if e == "n"));
            assert!(!self_closing);
        }
        _ => panic!("expected an element"),
    }
    assert_eq!(
        node.as_expression(),
        "rue_core::node::VNode::element(\"a\").attr(\"href\", \"/x\\\"y\").on(\"click\", go)\
         .children(::std::vec![rue_core::node::VNode::text(\"hi\"), \
         { let __val = (n); rue_core::node::VNode::text(&__val.to_string()) }]).build()"
    );
}

#[test]
fn code_of_nodes_whose_strings_are_literals_already() {
    let node = HtmlNode::Element {
        tag: "T".to_string(),
        attrs: vec![HtmlAttr { name: "N".to_string(), value: HtmlAttrValue::Bool }],
        children: vec![HtmlNode::Text("X".to_string())],
        self_closing: true,
    };
    assert_eq!(node.expression_code(), "rue_core::node::VNode::element(T).attr(N, \"\").build()");
    assert_eq!(
        HtmlNode::Fragment(vec![HtmlNode::VNodeExpr("v".to_string())]).statement_code(),
        "__rue_children.push(rue_core::node::VNode::fragment(::std::vec![\
         { let __vnode: rue_core::node::VNode = (v); __vnode }])); "
    );
    let template = HtmlTemplate { nodes: vec![HtmlNode::Text("X".to_string())] };
    assert_eq!(template.code(), block("__rue_children.push(rue_core::node::VNode::text(X)); "));
    assert_eq!(template.to_code(), block("__rue_children.push(rue_core::node::VNode::text(\"X\")); "));
}

#[test]
fn parse_error_messages() {
    assert_eq!(ParseError::ExpectedIdent.message(), "expected identifier");
    assert_eq!(ParseError::ExpectedExpression.message(), "expected an expression");
    assert_eq!(ParseError::UnexpectedToken.message(), "unexpected token");
}
