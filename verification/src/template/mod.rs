//! The `html!` template language: its tokens, its syntax tree, the parser
//! and the generator of the Rust code that builds the VNode tree.

use vstd::prelude::*;

use check::{check_tokens, checked_views, shapes, unflags, CheckedToken, CheckedView};
use codegen::{quoted_all_as, template_code};
use parse::{template_syntax, HtmlTemplate};

pub mod check;
pub mod codegen;
pub mod parse;

verus! {

// ---------------------------------------------------------------------------
// Tokens
// ---------------------------------------------------------------------------

/// The delimiter of a token group.
#[derive(Clone, Copy, Debug, PartialEq, Eq, Structural)]
pub enum Delimiter {
    Brace,
    Parenthesis,
    Bracket,
    Invisible,
}

/// The kind of a template token, as the Rust tokenizer produces it.
pub enum TokenKind {
    /// A single punctuation character.
    Punct(char),
    /// An identifier or keyword, as written.
    Ident(String),
    /// A literal, as written.
    Literal(String),
    /// A delimited group and the tokens inside it.
    Group(Delimiter, Vec<Token>),
}

/// A template token, with the source text of the token stream that starts
/// at it and runs to the end of its enclosing group (or of the input), as
/// the tokenizer prints it.
pub struct Token {
    pub kind: TokenKind,
    pub rest: String,
}

// ---------------------------------------------------------------------------
// Syntax tree
// ---------------------------------------------------------------------------

/// The value of a template attribute.
pub enum HtmlAttrValue {
    /// `name="literal"`
    Static(String),
    /// `name={expr}`: the expression's source text.
    Dynamic(String),
    /// `on:event={handler}`: the handler's source text.
    Event(String),
    /// `name` alone.
    Bool,
}

/// A template attribute.
pub struct HtmlAttr {
    pub name: String,
    pub value: HtmlAttrValue,
}

/// A parsed template node.
pub enum HtmlNode {
    Element { tag: String, attrs: Vec<HtmlAttr>, children: Vec<HtmlNode>, self_closing: bool },
    Text(String),
    Fragment(Vec<HtmlNode>),
    /// `{expr}`: an expression whose `to_string()` becomes a text node.
    Expr(String),
    /// `{vnode expr}` or `{vnode: expr}`: an expression that is a VNode.
    VNodeExpr(String),
}

/// Why a template does not parse.
#[derive(Clone, Copy, Debug, PartialEq, Eq, Structural)]
pub enum ParseError {
    /// An identifier was expected (a tag or attribute name, or an event name).
    ExpectedIdent,
    /// A braced expression is not a Rust expression.
    ExpectedExpression,
    /// Tokens are left over after the template.
    UnexpectedToken,
}

impl ParseError {
    /// The message of the compile error that reports this error.
    pub fn message(&self) -> (m: &'static str)
        ensures
            m@ == match *self {
                ParseError::ExpectedIdent => "expected identifier"@,
                ParseError::ExpectedExpression => "expected an expression"@,
                ParseError::UnexpectedToken => "unexpected token"@,
            },
    {
        match self {
            ParseError::ExpectedIdent => "expected identifier",
            ParseError::ExpectedExpression => "expected an expression",
            ParseError::UnexpectedToken => "unexpected token",
        }
    }
}

/// The value of an attribute, as characters.
pub enum AttrValueView {
    Static(Seq<char>),
    Dynamic(Seq<char>),
    Event(Seq<char>),
    Bool,
}

/// A template node, as characters and sequences.
pub enum NodeView {
    Element { tag: Seq<char>, attrs: Seq<(Seq<char>, AttrValueView)>, children: Seq<NodeView>, self_closing: bool },
    Text(Seq<char>),
    Fragment(Seq<NodeView>),
    Expr(Seq<char>),
    VNodeExpr(Seq<char>),
}

pub open spec fn attr_value_view(v: HtmlAttrValue) -> AttrValueView {
    match v {
        HtmlAttrValue::Static(s) => AttrValueView::Static(s@),
        HtmlAttrValue::Dynamic(s) => AttrValueView::Dynamic(s@),
        HtmlAttrValue::Event(s) => AttrValueView::Event(s@),
        HtmlAttrValue::Bool => AttrValueView::Bool,
    }
}

/// The first `k` attributes, as characters.
pub open spec fn attrs_view(attrs: Seq<HtmlAttr>, k: int) -> Seq<(Seq<char>, AttrValueView)>
    decreases k,
{
    if k <= 0 || k > attrs.len() {
        Seq::empty()
    } else {
        attrs_view(attrs, k - 1).push((attrs[k - 1].name@, attr_value_view(attrs[k - 1].value)))
    }
}

/// A node, as characters and sequences.
pub open spec fn node_view(n: HtmlNode) -> NodeView
    decreases n, 0nat,
{
    match n {
        HtmlNode::Element { tag, attrs, children, self_closing } => NodeView::Element {
            tag: tag@,
            attrs: attrs_view(attrs@, attrs@.len() as int),
            children: nodes_view(children@),
            self_closing,
        },
        HtmlNode::Text(s) => NodeView::Text(s@),
        HtmlNode::Fragment(cs) => NodeView::Fragment(nodes_view(cs@)),
        HtmlNode::Expr(s) => NodeView::Expr(s@),
        HtmlNode::VNodeExpr(s) => NodeView::VNodeExpr(s@),
    }
}

/// The nodes, as views.
pub open spec fn nodes_view(ns: Seq<HtmlNode>) -> Seq<NodeView>
    decreases ns, 1nat,
{
    if ns.len() == 0 {
        Seq::empty()
    } else {
        nodes_view(ns.drop_last()).push(node_view(ns.last()))
    }
}

/// The view of a sequence of nodes is the sequence of their views.
pub proof fn lemma_nodes_view(ns: Seq<HtmlNode>)
    ensures
        nodes_view(ns).len() == ns.len(),
        forall|i: int| 0 <= i < ns.len() ==> #[trigger] nodes_view(ns)[i] == node_view(ns[i]),
    decreases ns.len(),
{
    if ns.len() > 0 {
        lemma_nodes_view(ns.drop_last());
    }
}

/// The view of the attributes is the sequence of their views.
pub proof fn lemma_attrs_view(attrs: Seq<HtmlAttr>, k: int)
    requires
        0 <= k <= attrs.len(),
    ensures
        attrs_view(attrs, k).len() == k,
        forall|i: int| 0 <= i < k ==> #[trigger] attrs_view(attrs, k)[i] == (attrs[i].name@, attr_value_view(attrs[i].value)),
    decreases k,
{
    if k > 0 {
        lemma_attrs_view(attrs, k - 1);
    }
}

// ---------------------------------------------------------------------------
// What the Rust parser and tokenizer decide
// ---------------------------------------------------------------------------

/// Whether `text` is an identifier for `syn` (`syn::parse_str::<syn::Ident>`
/// succeeds). Nothing is stated of the answer: it depends on the lexer that
/// proc-macro2 picks at run time (the compiler's inside a procedural macro,
/// its own elsewhere), and the two differ on some texts.
#[verifier::external_body]
pub(crate) fn accepts_ident(text: &str) -> (b: bool)
{
    syn::parse_str::<syn::Ident>(text).is_ok()
}

/// Whether `text` is one Rust expression for `syn` (`syn::parse_str::<syn::Expr>`
/// succeeds). Nothing is stated of the answer, for the same reason as for
/// [`accepts_ident`].
#[verifier::external_body]
pub(crate) fn accepts_expr(text: &str) -> (b: bool)
{
    syn::parse_str::<syn::Expr>(text).is_ok()
}

/// The value of the string literal written `text` (`syn::parse_str::<syn::LitStr>`
/// then `LitStr::value`), or `None` when `text` is not a string literal.
/// Nothing is stated of the answer, for the same reason as for
/// [`accepts_ident`].
#[verifier::external_body]
pub(crate) fn lit_str_value(text: &str) -> (v: Option<String>)
{
    match syn::parse_str::<syn::LitStr>(text) {
        Ok(lit) => Some(lit.value()),
        Err(_) => None,
    }
}

// ---------------------------------------------------------------------------
// Rust string literals
// ---------------------------------------------------------------------------

/// The value of a hexadecimal digit.
pub open spec fn hex_digit(c: char) -> Option<int> {
    if '0' <= c && c <= '9' {
        Some((c as u32) - ('0' as u32))
    } else if 'a' <= c && c <= 'f' {
        Some((c as u32) - ('a' as u32) + 10)
    } else if 'A' <= c && c <= 'F' {
        Some((c as u32) - ('A' as u32) + 10)
    } else {
        None
    }
}

/// The number that the hexadecimal digits `ds` write (none for no digits).
pub open spec fn hex_value(ds: Seq<char>) -> Option<int>
    decreases ds.len(),
{
    if ds.len() == 0 {
        None
    } else if ds.len() == 1 {
        hex_digit(ds[0])
    } else {
        match (hex_value(ds.drop_last()), hex_digit(ds.last())) {
            (Some(a), Some(b)) => Some(a * 16 + b),
            _ => None,
        }
    }
}

/// The code of a character.
pub open spec fn char_code(c: char) -> int {
    (c as u32) as int
}

/// The character whose code is `v`, if there is one.
pub open spec fn char_of(v: int) -> Option<char> {
    if exists|c: char| #[trigger] char_code(c) == v {
        Some(choose|c: char| #[trigger] char_code(c) == v)
    } else {
        None
    }
}

/// The position of the first `}` in `b` from `i` on (the length when none).
pub open spec fn close_brace(b: Seq<char>, i: int) -> int
    decreases b.len() - i,
{
    if i < 0 || i >= b.len() {
        b.len() as int
    } else if b[i] == '}' {
        i
    } else {
        close_brace(b, i + 1)
    }
}

/// `c` followed by the characters of `rest`, if any.
pub open spec fn prepend(c: Option<char>, rest: Option<Seq<char>>) -> Option<Seq<char>> {
    match (c, rest) {
        (Some(x), Some(r)) => Some(seq![x] + r),
        _ => None,
    }
}

/// The character a simple escape `\e` stands for.
pub open spec fn simple_escape(e: char) -> Option<char> {
    if e == 'n' {
        Some('\n')
    } else if e == 'r' {
        Some('\r')
    } else if e == 't' {
        Some('\t')
    } else if e == '\\' {
        Some('\\')
    } else if e == '"' {
        Some('"')
    } else if e == '\'' {
        Some('\'')
    } else if e == '0' {
        Some('\0')
    } else {
        None
    }
}

/// The characters that the body `b` of a Rust string literal (between its
/// quotes) stands for, with its escapes read: `\n`, `\r`, `\t`, `\\`,
/// `\"`, `\'`, `\0`, `\x` and two hexadecimal digits up to `7f`, and
/// `\u{..}` with one to six hexadecimal digits; none when `b` is no such
/// body.
pub open spec fn unescape(b: Seq<char>) -> Option<Seq<char>>
    decreases b.len(),
{
    if b.len() == 0 {
        Some(Seq::empty())
    } else if b[0] == '"' {
        None
    } else if b[0] != '\\' {
        prepend(Some(b[0]), unescape(b.subrange(1, b.len() as int)))
    } else if b.len() < 2 {
        None
    } else if simple_escape(b[1]) is Some {
        prepend(simple_escape(b[1]), unescape(b.subrange(2, b.len() as int)))
    } else if b[1] == 'x' && b.len() >= 4 {
        match hex_value(b.subrange(2, 4)) {
            Some(v) => if v <= 0x7f {
                prepend(char_of(v), unescape(b.subrange(4, b.len() as int)))
            } else {
                None
            },
            None => None,
        }
    } else if b[1] == 'u' && b.len() >= 3 && b[2] == '{' {
        let close = close_brace(b, 3);
        if close < b.len() && 4 <= close && close <= 9 {
            match hex_value(b.subrange(3, close)) {
                Some(v) => prepend(char_of(v), unescape(b.subrange(close + 1, b.len() as int))),
                None => None,
            }
        } else {
            None
        }
    } else {
        None
    }
}

/// The value of the Rust string literal written `r` (a non-raw literal
/// without suffix), if `r` is one.
pub open spec fn lit_value(r: Seq<char>) -> Option<Seq<char>> {
    if r.len() >= 2 && r[0] == '"' && r[r.len() - 1] == '"' {
        unescape(r.subrange(1, r.len() - 1))
    } else {
        None
    }
}

/// The Rust source of a string literal whose value is `s`
/// (`proc_macro2::Literal::string`, printed). proc-macro2 prints it with the
/// compiler's printer inside a procedural macro and with its own escaping
/// (`escape_utf8`: quotes around the characters, each as `char::escape_debug`
/// writes it, `\0` or `\x00` for a nul) elsewhere; the text may differ
/// between the two, but either way it is a string literal whose value is
/// `s`, and that is all that is stated.
#[verifier::external_body]
pub(crate) fn string_literal(s: &str) -> (r: String)
    ensures
        lit_value(r@) == Some(s@),
{
    proc_macro2::Literal::string(s).to_string()
}

// ---------------------------------------------------------------------------
// The html! template
// ---------------------------------------------------------------------------

/// `r` is what a template whose checked tokens are `c` expands to: the
/// generated code, or why it does not parse.
pub open spec fn expands_to(c: Seq<CheckedView>, r: Result<String, ParseError>) -> bool {
    match template_syntax(c) {
        Ok(nodes) => r matches Ok(code) && exists|qs: Seq<NodeView>| quoted_all_as(nodes, qs) && code@ == template_code(qs),
        Err(e) => r == Err::<String, ParseError>(e),
    }
}

/// Expand a template whose tokens the Rust parser has checked: the Rust block
/// that builds its VNode tree, or why the template does not parse.
pub fn html_checked(checked: &Vec<CheckedToken>) -> (r: Result<String, ParseError>)
    ensures
        expands_to(checked_views(checked@), r),
{
    match HtmlTemplate::parse(checked) {
        Ok(template) => Ok(template.to_code()),
        Err(e) => Err(e),
    }
}

/// Expand an `html!` template: the Rust block that builds its VNode tree, or
/// why the template does not parse, for the parser's decisions about its
/// tokens.
pub fn html(input: &Vec<Token>) -> (r: Result<String, ParseError>)
    ensures
        exists|c: Seq<CheckedView>| unflags(c) == shapes(input@) && expands_to(c, r),
{
    let checked = check_tokens(input);
    let r = html_checked(&checked);
    assert(unflags(checked_views(checked@)) == shapes(input@) && expands_to(checked_views(checked@), r));
    r
}

/// The component attribute: it leaves the item as it is.
pub fn component(attr: Vec<Token>, item: Vec<Token>) -> (r: Vec<Token>)
    ensures
        r == item,
{
    item
}

} // verus!
