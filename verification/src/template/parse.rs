use vstd::prelude::*;

use super::check::{checked_views, lemma_checked_views, CheckedKind, CheckedKindView, CheckedToken, CheckedView};
use super::{attr_value_view, attrs_view, node_view, nodes_view, AttrValueView, Delimiter, HtmlAttr, HtmlAttrValue, HtmlNode, NodeView, ParseError};

verus! {

// ---------------------------------------------------------------------------
// Tests on checked tokens
// ---------------------------------------------------------------------------

/// The token at `pos` is the punctuation character `c`.
pub open spec fn is_punct(ts: Seq<CheckedView>, pos: int, c: char) -> bool {
    0 <= pos < ts.len() && (ts[pos].kind matches CheckedKindView::Punct(x) && x == c)
}

/// The token at `pos` is a braced group.
pub open spec fn is_brace(ts: Seq<CheckedView>, pos: int) -> bool {
    0 <= pos < ts.len() && (ts[pos].kind matches CheckedKindView::Group(d, _) && d == Delimiter::Brace)
}

/// The tokens inside the group at `pos`.
pub open spec fn group_tokens(ts: Seq<CheckedView>, pos: int) -> Seq<CheckedView> {
    if 0 <= pos < ts.len() {
        match ts[pos].kind {
            CheckedKindView::Group(_, inner) => inner,
            _ => Seq::empty(),
        }
    } else {
        Seq::empty()
    }
}

/// The identifier at `pos`, when the token there is one (keywords are not).
pub open spec fn ident_at(ts: Seq<CheckedView>, pos: int) -> Option<Seq<char>> {
    if 0 <= pos < ts.len() {
        match ts[pos].kind {
            CheckedKindView::Ident(s, ok) => if ok {
                Some(s)
            } else {
                None
            },
            _ => None,
        }
    } else {
        None
    }
}

/// The value of the string literal at `pos`, when the token there is one.
pub open spec fn lit_str_at(ts: Seq<CheckedView>, pos: int) -> Option<Seq<char>> {
    if 0 <= pos < ts.len() {
        match ts[pos].kind {
            CheckedKindView::Literal(_, v) => v,
            _ => None,
        }
    } else {
        None
    }
}

/// The source text of the tokens from `pos` to the end.
pub open spec fn rest_text(ts: Seq<CheckedView>, pos: int) -> Seq<char> {
    if 0 <= pos < ts.len() {
        ts[pos].rest
    } else {
        Seq::empty()
    }
}

/// The tokens from `pos` to the end, as one expression (no tokens are none).
pub open spec fn expr_from(ts: Seq<CheckedView>, pos: int) -> Result<Seq<char>, ParseError> {
    if 0 <= pos < ts.len() && ts[pos].rest_is_expr {
        Ok(ts[pos].rest)
    } else {
        Err(ParseError::ExpectedExpression)
    }
}

/// Skip the punctuation `c` at `pos`, if it is there.
pub open spec fn skip_punct(ts: Seq<CheckedView>, pos: int, c: char) -> int {
    if is_punct(ts, pos, c) {
        pos + 1
    } else {
        pos
    }
}

/// The node a braced group holds: `{vnode expr}` or `{vnode: expr}` is a
/// VNode expression; any other `{expr}` is an expression shown as text.
pub open spec fn braced_node(inner: Seq<CheckedView>) -> Result<NodeView, ParseError> {
    if ident_at(inner, 0) == Some("vnode"@) {
        let p = if is_punct(inner, 1, ':') {
            2int
        } else {
            1int
        };
        match expr_from(inner, p) {
            Ok(e) => Ok(NodeView::VNodeExpr(e)),
            Err(err) => Err(err),
        }
    } else {
        match expr_from(inner, 0) {
            Ok(e) => Ok(NodeView::Expr(e)),
            Err(err) => Err(err),
        }
    }
}

/// A `:` after `vnode` in a braced group is optional: `{vnode: e}` gives
/// the same node as `{vnode e}`, for every expression `e` that does not
/// itself start with `:`.
pub proof fn lemma_vnode_colon_is_optional(v: CheckedView, colon: CheckedView, tail: Seq<CheckedView>)
    requires
        v.kind == CheckedKindView::Ident("vnode"@, true),
        colon.kind == CheckedKindView::Punct(':'),
        !is_punct(tail, 0, ':'),
    ensures
        braced_node(seq![v, colon] + tail) == braced_node(seq![v] + tail),
{
    let a = seq![v, colon] + tail;
    let b = seq![v] + tail;
    assert(a[0] == v && a[1] == colon);
    assert(b[0] == v);
    if tail.len() > 0 {
        assert(a[2] == tail[0]);
        assert(b[1] == tail[0]);
    }
}

/// `{vnode e}` is the VNode expression written by the tokens after `vnode`
/// (their source, to the end of the group), when that source is one Rust
/// expression, and is refused as no expression otherwise; the same holds
/// after `vnode:`.
pub proof fn lemma_vnode_braces_hold_the_expression(v: CheckedView, tail: Seq<CheckedView>)
    requires
        v.kind == CheckedKindView::Ident("vnode"@, true),
        !is_punct(tail, 0, ':'),
    ensures
        braced_node(seq![v] + tail) == if tail.len() > 0 && tail[0].rest_is_expr {
            Ok::<NodeView, ParseError>(NodeView::VNodeExpr(tail[0].rest))
        } else {
            Err::<NodeView, ParseError>(ParseError::ExpectedExpression)
        },
{
    let b = seq![v] + tail;
    assert(b[0] == v);
    if tail.len() > 0 {
        assert(b[1] == tail[0]);
    }
}

/// Any other braced group is an expression shown as text: its source, when
/// it is one Rust expression.
pub proof fn lemma_other_braces_hold_an_expression(inner: Seq<CheckedView>)
    requires
        ident_at(inner, 0) != Some("vnode"@),
    ensures
        braced_node(inner) == if inner.len() > 0 && inner[0].rest_is_expr {
            Ok::<NodeView, ParseError>(NodeView::Expr(inner[0].rest))
        } else {
            Err::<NodeView, ParseError>(ParseError::ExpectedExpression)
        },
{
}

// ---------------------------------------------------------------------------
// The template grammar
// ---------------------------------------------------------------------------

/// Text content from `pos` on: string literals give their values,
/// identifiers their names followed by a space, and any other token the
/// source of all the tokens left; it stops before `<` or a braced group.
pub open spec fn text_run(ts: Seq<CheckedView>, pos: int, acc: Seq<char>) -> (Seq<char>, int)
    decreases ts.len() - pos,
{
    if pos < 0 || pos >= ts.len() || is_punct(ts, pos, '<') || is_brace(ts, pos) {
        (acc, pos)
    } else {
        match lit_str_at(ts, pos) {
            Some(v) => text_run(ts, pos + 1, acc + v),
            None => match ident_at(ts, pos) {
                Some(name) => text_run(ts, pos + 1, acc + name + " "@),
                None => if rest_text(ts, pos).len() > 0 {
                    (acc + rest_text(ts, pos), ts.len() as int)
                } else {
                    (acc, pos)
                },
            },
        }
    }
}

/// Whether `c` is white space (Unicode `White_Space`).
pub open spec fn is_white_space(c: char) -> bool {
    ||| '\u{9}' <= c <= '\u{d}'
    ||| c == ' '
    ||| c == '\u{85}'
    ||| c == '\u{a0}'
    ||| c == '\u{1680}'
    ||| '\u{2000}' <= c <= '\u{200a}'
    ||| c == '\u{2028}'
    ||| c == '\u{2029}'
    ||| c == '\u{202f}'
    ||| c == '\u{205f}'
    ||| c == '\u{3000}'
}

/// `s` without its trailing white space.
pub open spec fn trim_end(s: Seq<char>) -> Seq<char>
    decreases s.len(),
{
    if s.len() > 0 && is_white_space(s.last()) {
        trim_end(s.drop_last())
    } else {
        s
    }
}

/// An attribute name continued by `-part`s, from `pos` on.
pub open spec fn attr_name_syntax(ts: Seq<CheckedView>, pos: int, acc: Seq<char>) -> Result<(Seq<char>, int), ParseError>
    decreases ts.len() - pos,
{
    if 0 <= pos < ts.len() && is_punct(ts, pos, '-') {
        match ident_at(ts, pos + 1) {
            Some(part) => attr_name_syntax(ts, pos + 2, acc + "-"@ + part),
            None => Err(ParseError::ExpectedIdent),
        }
    } else {
        Ok((acc, pos))
    }
}

/// The attributes of an opening tag from `pos` on, up to `>` or `/`.
pub open spec fn attrs_syntax(ts: Seq<CheckedView>, pos: int) -> Result<
    (Seq<(Seq<char>, AttrValueView)>, int),
    ParseError,
>
    decreases ts.len() - pos,
{
    if pos < 0 || is_punct(ts, pos, '>') || is_punct(ts, pos, '/') {
        Ok((Seq::empty(), pos))
    } else if is_brace(ts, pos) {
        // A braced expression among the attributes is checked, then dropped.
        match expr_from(group_tokens(ts, pos), 0) {
            Ok(_) => attrs_syntax(ts, pos + 1),
            Err(e) => Err(e),
        }
    } else {
        match ident_at(ts, pos) {
            None => Err(ParseError::ExpectedIdent),
            Some(first) => match attr_name_syntax(ts, pos + 1, first) {
                Err(e) => Err(e),
                Ok((name, p)) => {
                    proof {
                        lemma_attr_name_advances(ts, pos + 1, first);
                    }
                    if name == "on"@ && is_punct(ts, p, ':') {
                        // Event handler: on:click={...}
                        match ident_at(ts, p + 1) {
                            None => Err(ParseError::ExpectedIdent),
                            Some(event) => {
                                let q = skip_punct(ts, p + 2, '=');
                                if is_brace(ts, q) {
                                    match expr_from(group_tokens(ts, q), 0) {
                                        Err(e) => Err(e),
                                        Ok(handler) => match attrs_syntax(ts, q + 1) {
                                            Ok((rest, r)) => Ok(
                                                (
                                                    seq![("on:"@ + event, AttrValueView::Event(handler))]
                                                        + rest,
                                                    r,
                                                ),
                                            ),
                                            Err(e) => Err(e),
                                        },
                                    }
                                } else {
                                    attrs_syntax(ts, q)
                                }
                            },
                        }
                    } else if is_punct(ts, p, '=') {
                        match lit_str_at(ts, p + 1) {
                            Some(v) => match attrs_syntax(ts, p + 2) {
                                Ok((rest, r)) => Ok((seq![(name, AttrValueView::Static(v))] + rest, r)),
                                Err(e) => Err(e),
                            },
                            None => if is_brace(ts, p + 1) {
                                match expr_from(group_tokens(ts, p + 1), 0) {
                                    Err(e) => Err(e),
                                    Ok(x) => match attrs_syntax(ts, p + 2) {
                                        Ok((rest, r)) => Ok(
                                            (seq![(name, AttrValueView::Dynamic(x))] + rest, r),
                                        ),
                                        Err(e) => Err(e),
                                    },
                                }
                            } else {
                                // Neither a literal nor a braced expression: the attribute is dropped.
                                attrs_syntax(ts, p + 1)
                            },
                        }
                    } else {
                        match attrs_syntax(ts, p) {
                            Ok((rest, r)) => Ok((seq![(name, AttrValueView::Bool)] + rest, r)),
                            Err(e) => Err(e),
                        }
                    }
                }
            },
        }
    }
}

/// The nodes from `pos` on, up to the end, or (inside a tag or fragment) up
/// to a closing `</`; with the position after them.
pub open spec fn nodes_syntax(ts: Seq<CheckedView>, pos: int, inside_tag: bool) -> Result<(Seq<NodeView>, int), ParseError>
    decreases ts.len() - pos, 1int,
{
    if pos < 0 || pos >= ts.len() {
        Ok((Seq::empty(), pos))
    } else if inside_tag && is_punct(ts, pos, '<') && is_punct(ts, pos + 1, '/') {
        Ok((Seq::empty(), pos))
    } else if is_punct(ts, pos, '<') {
        if is_punct(ts, pos + 1, '>') {
            // Fragment <> ... </>
            match nodes_syntax(ts, pos + 2, true) {
                Err(e) => Err(e),
                Ok((children, p)) => {
                    let q = skip_punct(ts, skip_punct(ts, skip_punct(ts, p, '<'), '/'), '>');
                    if pos < q <= ts.len() {
                        match nodes_syntax(ts, q, inside_tag) {
                            Ok((rest, r)) => Ok((seq![NodeView::Fragment(children)] + rest, r)),
                            Err(e) => Err(e),
                        }
                    } else {
                        Ok((seq![NodeView::Fragment(children)], q))
                    }
                },
            }
        } else {
            match element_syntax(ts, pos) {
                Err(e) => Err(e),
                Ok((node, p)) => if pos < p <= ts.len() {
                    match nodes_syntax(ts, p, inside_tag) {
                        Ok((rest, r)) => Ok((seq![node] + rest, r)),
                        Err(e) => Err(e),
                    }
                } else {
                    Ok((seq![node], p))
                },
            }
        }
    } else if is_brace(ts, pos) {
        match braced_node(group_tokens(ts, pos)) {
            Err(e) => Err(e),
            Ok(node) => match nodes_syntax(ts, pos + 1, inside_tag) {
                Ok((rest, r)) => Ok((seq![node] + rest, r)),
                Err(e) => Err(e),
            },
        }
    } else {
        let (text, p) = text_run(ts, pos, Seq::empty());
        if text.len() > 0 {
            proof {
                lemma_text_run_advances(ts, pos, Seq::empty());
            }
            match nodes_syntax(ts, p, inside_tag) {
                Ok((rest, r)) => Ok((seq![NodeView::Text(trim_end(text))] + rest, r)),
                Err(e) => Err(e),
            }
        } else {
            Ok((Seq::empty(), p))
        }
    }
}

/// The element whose `<` is at `pos`, with the position after it: tag,
/// attributes, then `/>`, or `>` children `</name>`.
pub open spec fn element_syntax(ts: Seq<CheckedView>, pos: int) -> Result<(NodeView, int), ParseError>
    decreases ts.len() - pos, 0int,
{
    let p0 = skip_punct(ts, pos, '<');
    match ident_at(ts, p0) {
        None => Err(ParseError::ExpectedIdent),
        Some(tag) => match attrs_syntax(ts, p0 + 1) {
            Err(e) => Err(e),
            Ok((attrs, p1)) => {
                proof {
                    lemma_parse_attrs_advances(ts, p0 + 1);
                }
                let self_closing = is_punct(ts, p1, '/');
                let p3 = skip_punct(ts, skip_punct(ts, p1, '/'), '>');
                if self_closing {
                    Ok((NodeView::Element { tag, attrs, children: Seq::empty(), self_closing: true }, p3))
                } else {
                    match nodes_syntax(ts, p3, true) {
                        Err(e) => Err(e),
                        Ok((children, p4)) => {
                            let p6 = skip_punct(ts, skip_punct(ts, p4, '<'), '/');
                            match ident_at(ts, p6) {
                                None => Err(ParseError::ExpectedIdent),
                                Some(_) => Ok(
                                    (
                                        NodeView::Element { tag, attrs, children, self_closing: false },
                                        skip_punct(ts, p6 + 1, '>'),
                                    ),
                                ),
                            }
                        },
                    }
                }
            },
        },
    }
}

/// The template: its nodes, when they use up all the tokens.
pub open spec fn template_syntax(ts: Seq<CheckedView>) -> Result<Seq<NodeView>, ParseError> {
    match nodes_syntax(ts, 0, false) {
        Err(e) => Err(e),
        Ok((nodes, p)) => if p < ts.len() {
            Err(ParseError::UnexpectedToken)
        } else {
            Ok(nodes)
        },
    }
}

// ---------------------------------------------------------------------------
// Progress lemmas
// ---------------------------------------------------------------------------

/// Reading an attribute name never moves backwards, nor past the end.
pub proof fn lemma_attr_name_advances(ts: Seq<CheckedView>, pos: int, acc: Seq<char>)
    ensures
        attr_name_syntax(ts, pos, acc) matches Ok((_, p)) ==> p >= pos && (pos <= ts.len() ==> p <= ts.len()),
    decreases ts.len() - pos,
{
    if 0 <= pos < ts.len() && is_punct(ts, pos, '-') {
        if let Some(part) = ident_at(ts, pos + 1) {
            lemma_attr_name_advances(ts, pos + 2, acc + "-"@ + part);
        }
    }
}

/// Reading the attributes never moves backwards, nor past the end.
pub proof fn lemma_parse_attrs_advances(ts: Seq<CheckedView>, pos: int)
    ensures
        attrs_syntax(ts, pos) matches Ok((_, p)) ==> p >= pos && (pos <= ts.len() ==> p <= ts.len()),
    decreases ts.len() - pos,
{
    if pos < 0 || is_punct(ts, pos, '>') || is_punct(ts, pos, '/') {
    } else if is_brace(ts, pos) {
        lemma_parse_attrs_advances(ts, pos + 1);
    } else {
        if let Some(first) = ident_at(ts, pos) {
            lemma_attr_name_advances(ts, pos + 1, first);
            if let Ok((name, p)) = attr_name_syntax(ts, pos + 1, first) {
                if name == "on"@ && is_punct(ts, p, ':') {
                    if ident_at(ts, p + 1) is Some {
                        let q = skip_punct(ts, p + 2, '=');
                        if is_brace(ts, q) {
                            lemma_parse_attrs_advances(ts, q + 1);
                        } else {
                            lemma_parse_attrs_advances(ts, q);
                        }
                    }
                } else if is_punct(ts, p, '=') {
                    if lit_str_at(ts, p + 1) is Some || is_brace(ts, p + 1) {
                        lemma_parse_attrs_advances(ts, p + 2);
                    } else {
                        lemma_parse_attrs_advances(ts, p + 1);
                    }
                } else {
                    lemma_parse_attrs_advances(ts, p);
                }
            }
        }
    }
}

/// A text run that yields text moves forward, and not past the end.
pub proof fn lemma_text_run_advances(ts: Seq<CheckedView>, pos: int, acc: Seq<char>)
    ensures
        text_run(ts, pos, acc).1 >= pos,
        pos <= ts.len() ==> text_run(ts, pos, acc).1 <= ts.len(),
        text_run(ts, pos, acc).0.len() > acc.len() ==> text_run(ts, pos, acc).1 > pos,
    decreases ts.len() - pos,
{
    if pos < 0 || pos >= ts.len() || is_punct(ts, pos, '<') || is_brace(ts, pos) {
    } else {
        match lit_str_at(ts, pos) {
            Some(v) => lemma_text_run_advances(ts, pos + 1, acc + v),
            None => match ident_at(ts, pos) {
                Some(name) => lemma_text_run_advances(ts, pos + 1, acc + name + " "@),
                None => {},
            },
        }
    }
}

// ---------------------------------------------------------------------------
// Parsing
// ---------------------------------------------------------------------------

fn punct_at(ts: &Vec<CheckedToken>, pos: usize, c: char) -> (b: bool)
    ensures
        b == is_punct(checked_views(ts@), pos as int, c),
{
    proof {
        lemma_checked_views(ts@);
    }
    if pos < ts.len() {
        match &ts[pos].kind {
            CheckedKind::Punct(x) => *x == c,
            _ => false,
        }
    } else {
        false
    }
}

fn brace_at(ts: &Vec<CheckedToken>, pos: usize) -> (b: bool)
    ensures
        b == is_brace(checked_views(ts@), pos as int),
{
    proof {
        lemma_checked_views(ts@);
    }
    if pos < ts.len() {
        match &ts[pos].kind {
            CheckedKind::Group(d, _) => *d == Delimiter::Brace,
            _ => false,
        }
    } else {
        false
    }
}

fn ident_text_at(ts: &Vec<CheckedToken>, pos: usize) -> (r: Option<&String>)
    ensures
        r is Some == ident_at(checked_views(ts@), pos as int) is Some,
        r matches Some(s) ==> ident_at(checked_views(ts@), pos as int) == Some(s@),
{
    proof {
        lemma_checked_views(ts@);
    }
    if pos < ts.len() {
        match &ts[pos].kind {
            CheckedKind::Ident(s, ok) => if *ok {
                Some(s)
            } else {
                None
            },
            _ => None,
        }
    } else {
        None
    }
}

fn lit_str_text_at(ts: &Vec<CheckedToken>, pos: usize) -> (r: Option<String>)
    ensures
        r is Some == lit_str_at(checked_views(ts@), pos as int) is Some,
        r matches Some(s) ==> lit_str_at(checked_views(ts@), pos as int) == Some(s@),
{
    proof {
        lemma_checked_views(ts@);
    }
    if pos < ts.len() {
        match &ts[pos].kind {
            CheckedKind::Literal(_, v) => match v {
                Some(x) => Some(x.clone()),
                None => None,
            },
            _ => None,
        }
    } else {
        None
    }
}

fn rest_at(ts: &Vec<CheckedToken>, pos: usize) -> (r: String)
    ensures
        r@ == rest_text(checked_views(ts@), pos as int),
{
    proof {
        lemma_checked_views(ts@);
    }
    if pos < ts.len() {
        ts[pos].rest.clone()
    } else {
        String::new()
    }
}

fn skip(ts: &Vec<CheckedToken>, pos: usize, c: char) -> (p: usize)
    requires
        pos <= ts.len(),
    ensures
        p == skip_punct(checked_views(ts@), pos as int, c),
        p <= ts.len(),
{
    proof {
        lemma_checked_views(ts@);
    }
    if punct_at(ts, pos, c) {
        pos + 1
    } else {
        pos
    }
}

/// The tokens from `pos` to the end, as one Rust expression.
fn parse_expr(ts: &Vec<CheckedToken>, pos: usize) -> (r: Result<String, ParseError>)
    ensures
        match r {
            Ok(e) => expr_from(checked_views(ts@), pos as int) == Ok::<Seq<char>, ParseError>(e@),
            Err(err) => expr_from(checked_views(ts@), pos as int) == Err::<Seq<char>, ParseError>(err),
        },
{
    proof {
        lemma_checked_views(ts@);
    }
    if pos < ts.len() && ts[pos].rest_is_expr {
        Ok(ts[pos].rest.clone())
    } else {
        Err(ParseError::ExpectedExpression)
    }
}

/// The node a braced group holds.
fn parse_braced(inner: &Vec<CheckedToken>) -> (r: Result<HtmlNode, ParseError>)
    ensures
        match r {
            Ok(n) => braced_node(checked_views(inner@)) == Ok::<NodeView, ParseError>(node_view(n)),
            Err(e) => braced_node(checked_views(inner@)) == Err::<NodeView, ParseError>(e),
        },
{
    proof {
        lemma_checked_views(inner@);
    }
    // `vnode` prefix: {vnode expr} or {vnode: expr}
    let is_vnode = match ident_text_at(inner, 0) {
        Some(id) => *id == String::from_str("vnode"),
        None => false,
    };
    if is_vnode {
        let p: usize = if punct_at(inner, 1, ':') {
            2
        } else {
            1
        };
        match parse_expr(inner, p) {
            Ok(e) => Ok(HtmlNode::VNodeExpr(e)),
            Err(err) => Err(err),
        }
    } else {
        // Regular expression — shown as text
        match parse_expr(inner, 0) {
            Ok(e) => Ok(HtmlNode::Expr(e)),
            Err(err) => Err(err),
        }
    }
}

/// The node held by the braced group at `pos`.
fn parse_braced_at(ts: &Vec<CheckedToken>, pos: usize) -> (r: Result<HtmlNode, ParseError>)
    requires
        is_brace(checked_views(ts@), pos as int),
    ensures
        match r {
            Ok(n) => braced_node(group_tokens(checked_views(ts@), pos as int)) == Ok::<NodeView, ParseError>(node_view(n)),
            Err(e) => braced_node(group_tokens(checked_views(ts@), pos as int)) == Err::<NodeView, ParseError>(e),
        },
{
    proof {
        lemma_checked_views(ts@);
    }
    match &ts[pos].kind {
        CheckedKind::Group(_, inner) => parse_braced(inner),
        _ => {
            proof {
                assert(false);
            }
            Err(ParseError::ExpectedExpression)
        },
    }
}

/// The expression held by the braced group at `pos`.
fn parse_expr_at(ts: &Vec<CheckedToken>, pos: usize) -> (r: Result<String, ParseError>)
    requires
        is_brace(checked_views(ts@), pos as int),
    ensures
        match r {
            Ok(e) => expr_from(group_tokens(checked_views(ts@), pos as int), 0) == Ok::<Seq<char>, ParseError>(e@),
            Err(err) => expr_from(group_tokens(checked_views(ts@), pos as int), 0) == Err::<Seq<char>, ParseError>(err),
        },
{
    proof {
        lemma_checked_views(ts@);
    }
    match &ts[pos].kind {
        CheckedKind::Group(_, inner) => parse_expr(inner, 0),
        _ => {
            proof {
                assert(false);
            }
            Err(ParseError::ExpectedExpression)
        },
    }
}

/// Text content from `pos` on, appended to `acc`.
fn parse_text(ts: &Vec<CheckedToken>, pos: usize, acc: String) -> (r: (String, usize))
    requires
        pos <= ts.len(),
    ensures
        r.0@ == text_run(checked_views(ts@), pos as int, acc@).0,
        r.1 == text_run(checked_views(ts@), pos as int, acc@).1,
        r.1 <= ts.len(),
    decreases ts@.len() - pos,
{
    proof {
        lemma_checked_views(ts@);
    }
    if pos >= ts.len() || punct_at(ts, pos, '<') || brace_at(ts, pos) {
        return (acc, pos);
    }
    let mut text = acc;
    match lit_str_text_at(ts, pos) {
        Some(v) => {
            text.append(v.as_str());
            parse_text(ts, pos + 1, text)
        },
        None => match ident_text_at(ts, pos) {
            Some(name) => {
                text.append(name.as_str());
                text.append(" ");
                parse_text(ts, pos + 1, text)
            },
            None => {
                let rest = rest_at(ts, pos);
                if rest.unicode_len() > 0 {
                    text.append(rest.as_str());
                    (text, ts.len())
                } else {
                    (text, pos)
                }
            },
        },
    }
}

/// `s` without its trailing white space.
fn trim_end_string(s: &String) -> (r: String)
    ensures
        r@ == trim_end(s@),
{
    let t = s.as_str();
    let mut n = t.unicode_len();
    proof {
        assert(t@.subrange(0, n as int) =~= t@);
    }
    while n > 0 && is_white_space_char(t.get_char(n - 1))
        invariant
            n <= t@.len(),
            trim_end(t@) == trim_end(t@.subrange(0, n as int)),
        decreases n,
    {
        proof {
            assert(t@.subrange(0, n as int).drop_last() =~= t@.subrange(0, n - 1));
        }
        n = n - 1;
    }
    let r = String::from_str(t.substring_char(0, n));
    proof {
        if n > 0 {
            assert(t@.subrange(0, n as int).last() == t@[n - 1]);
        }
    }
    r
}

fn is_white_space_char(c: char) -> (b: bool)
    ensures
        b == is_white_space(c),
{
    ('\u{9}' <= c && c <= '\u{d}') || c == ' ' || c == '\u{85}' || c == '\u{a0}' || c == '\u{1680}'
        || ('\u{2000}' <= c && c <= '\u{200a}') || c == '\u{2028}' || c == '\u{2029}' || c == '\u{202f}'
        || c == '\u{205f}' || c == '\u{3000}'
}

/// An attribute name continued by `-part`s, from `pos` on, appended to `acc`.
fn parse_attr_name(ts: &Vec<CheckedToken>, pos: usize, acc: String) -> (r: Result<(String, usize), ParseError>)
    requires
        pos <= ts.len(),
    ensures
        match r {
            Ok((name, p)) => attr_name_syntax(checked_views(ts@), pos as int, acc@) == Ok::<(Seq<char>, int), ParseError>(
                (name@, p as int),
            ) && p <= ts.len(),
            Err(e) => attr_name_syntax(checked_views(ts@), pos as int, acc@) == Err::<(Seq<char>, int), ParseError>(e),
        },
    decreases ts@.len() - pos,
{
    proof {
        lemma_checked_views(ts@);
    }
    if pos < ts.len() && punct_at(ts, pos, '-') {
        match ident_text_at(ts, pos + 1) {
            Some(part) => {
                let mut name = acc;
                name.append("-");
                name.append(part.as_str());
                parse_attr_name(ts, pos + 2, name)
            },
            None => Err(ParseError::ExpectedIdent),
        }
    } else {
        Ok((acc, pos))
    }
}

/// Put `attr` in front of the attributes parsed after it.
fn cons_attr(
    attr: HtmlAttr,
    rest: Result<(Vec<HtmlAttr>, usize), ParseError>,
) -> (r: Result<(Vec<HtmlAttr>, usize), ParseError>)
    ensures
        match rest {
            Ok((v, p)) => r matches Ok((w, q)) && q == p && w@ == seq![attr] + v@,
            Err(e) => r == Err::<(Vec<HtmlAttr>, usize), ParseError>(e),
        },
{
    match rest {
        Ok((mut v, p)) => {
            v.insert(0, attr);
            Ok((v, p))
        },
        Err(e) => Err(e),
    }
}

/// The view of attributes with one put in front.
proof fn lemma_attrs_view_cons(a: HtmlAttr, v: Seq<HtmlAttr>)
    ensures
        attrs_view(seq![a] + v, (v.len() + 1) as int) == seq![(a.name@, attr_value_view(a.value))] + attrs_view(v, v.len() as int),
{
    super::lemma_attrs_view(seq![a] + v, (v.len() + 1) as int);
    super::lemma_attrs_view(v, v.len() as int);
    assert(attrs_view(seq![a] + v, (v.len() + 1) as int) =~= seq![(a.name@, attr_value_view(a.value))] + attrs_view(v, v.len() as int));
}

/// The attributes of an opening tag from `pos` on.
fn parse_attrs(ts: &Vec<CheckedToken>, pos: usize) -> (r: Result<(Vec<HtmlAttr>, usize), ParseError>)
    requires
        pos <= ts.len(),
    ensures
        match r {
            Ok((attrs, p)) => attrs_syntax(checked_views(ts@), pos as int) == Ok::<(Seq<(Seq<char>, AttrValueView)>, int), ParseError>(
                (attrs_view(attrs@, attrs@.len() as int), p as int),
            ) && p <= ts.len(),
            Err(e) => attrs_syntax(checked_views(ts@), pos as int) == Err::<(Seq<(Seq<char>, AttrValueView)>, int), ParseError>(e),
        },
    decreases ts@.len() - pos,
{
    proof {
        lemma_checked_views(ts@);
    }
    if punct_at(ts, pos, '>') || punct_at(ts, pos, '/') {
        return Ok((Vec::new(), pos));
    }
    if brace_at(ts, pos) {
        // A braced expression among the attributes is checked, then dropped.
        return match parse_expr_at(ts, pos) {
            Ok(_) => parse_attrs(ts, pos + 1),
            Err(e) => Err(e),
        };
    }
    let first = match ident_text_at(ts, pos) {
        Some(id) => id.clone(),
        None => return Err(ParseError::ExpectedIdent),
    };
    // Attribute names may contain hyphens (e.g. "stroke-linecap")
    let (name, p) = match parse_attr_name(ts, pos + 1, first) {
        Ok(np) => np,
        Err(e) => return Err(e),
    };
    proof {
        lemma_attr_name_advances(checked_views(ts@), pos + 1, ident_at(checked_views(ts@), pos as int)->0);
    }
    // Event handler: on:click={...}
    if name == String::from_str("on") && punct_at(ts, p, ':') {
        let event = match ident_text_at(ts, p + 1) {
            Some(ev) => ev,
            None => return Err(ParseError::ExpectedIdent),
        };
        let mut full_name = String::from_str("on:");
        full_name.append(event.as_str());
        let q = skip(ts, p + 2, '=');
        if brace_at(ts, q) {
            let handler = match parse_expr_at(ts, q) {
                Ok(h) => h,
                Err(e) => return Err(e),
            };
            let attr = HtmlAttr { name: full_name, value: HtmlAttrValue::Event(handler) };
            let rest = parse_attrs(ts, q + 1);
            let ghost rest_g = rest;
            let r = cons_attr(attr, rest);
            proof {
                if let Ok((ref w, _)) = r {
                    let v = rest_g->Ok_0.0;
                    lemma_attrs_view_cons(attr, v@);
                    assert(w@ =~= seq![attr] + v@);
                }
            }
            return r;
        }
        return parse_attrs(ts, q);
    }
    if punct_at(ts, p, '=') {
        match lit_str_text_at(ts, p + 1) {
            Some(v) => {
                let attr = HtmlAttr { name, value: HtmlAttrValue::Static(v) };
                let rest = parse_attrs(ts, p + 2);
            let ghost rest_g = rest;
            let r = cons_attr(attr, rest);
            proof {
                if let Ok((ref w, _)) = r {
                    let v = rest_g->Ok_0.0;
                    lemma_attrs_view_cons(attr, v@);
                    assert(w@ =~= seq![attr] + v@);
                }
            }
                r
            },
            None => if brace_at(ts, p + 1) {
                let x = match parse_expr_at(ts, p + 1) {
                    Ok(x) => x,
                    Err(e) => return Err(e),
                };
                let attr = HtmlAttr { name, value: HtmlAttrValue::Dynamic(x) };
                let rest = parse_attrs(ts, p + 2);
            let ghost rest_g = rest;
            let r = cons_attr(attr, rest);
            proof {
                if let Ok((ref w, _)) = r {
                    let v = rest_g->Ok_0.0;
                    lemma_attrs_view_cons(attr, v@);
                    assert(w@ =~= seq![attr] + v@);
                }
            }
                r
            } else {
                // Neither a literal nor a braced expression: the attribute is dropped.
                parse_attrs(ts, p + 1)
            },
        }
    } else {
        let attr = HtmlAttr { name, value: HtmlAttrValue::Bool };
        let rest = parse_attrs(ts, p);
            let ghost rest_g = rest;
            let r = cons_attr(attr, rest);
            proof {
                if let Ok((ref w, _)) = r {
                    let v = rest_g->Ok_0.0;
                    lemma_attrs_view_cons(attr, v@);
                    assert(w@ =~= seq![attr] + v@);
                }
            }
        r
    }
}

/// Put `node` in front of the nodes parsed after it.
fn cons_node(
    node: HtmlNode,
    rest: Result<(Vec<HtmlNode>, usize), ParseError>,
) -> (r: Result<(Vec<HtmlNode>, usize), ParseError>)
    ensures
        match rest {
            Ok((v, p)) => r matches Ok((w, q)) && q == p && w@ == seq![node] + v@,
            Err(e) => r == Err::<(Vec<HtmlNode>, usize), ParseError>(e),
        },
{
    match rest {
        Ok((mut v, p)) => {
            v.insert(0, node);
            Ok((v, p))
        },
        Err(e) => Err(e),
    }
}

/// The view of nodes with one put in front.
proof fn lemma_nodes_view_cons(n: HtmlNode, v: Seq<HtmlNode>)
    ensures
        nodes_view(seq![n] + v) == seq![node_view(n)] + nodes_view(v),
{
    super::lemma_nodes_view(seq![n] + v);
    super::lemma_nodes_view(v);
    assert(nodes_view(seq![n] + v) =~= seq![node_view(n)] + nodes_view(v));
}

/// Parse a sequence of HTML nodes from `pos` until the end of the input, or
/// (inside a tag) until a closing tag.
pub fn parse_nodes(ts: &Vec<CheckedToken>, pos: usize, inside_tag: bool) -> (r: Result<(Vec<HtmlNode>, usize), ParseError>)
    requires
        pos <= ts.len(),
    ensures
        match r {
            Ok((nodes, p)) => nodes_syntax(checked_views(ts@), pos as int, inside_tag) == Ok::<(Seq<NodeView>, int), ParseError>(
                (nodes_view(nodes@), p as int),
            ) && p <= ts.len(),
            Err(e) => nodes_syntax(checked_views(ts@), pos as int, inside_tag) == Err::<(Seq<NodeView>, int), ParseError>(e),
        },
    decreases ts@.len() - pos, 1int,
{
    proof {
        lemma_checked_views(ts@);
    }
    if pos >= ts.len() {
        return Ok((Vec::new(), pos));
    }
    if inside_tag && punct_at(ts, pos, '<') && punct_at(ts, pos + 1, '/') {
        return Ok((Vec::new(), pos));
    }
    if punct_at(ts, pos, '<') {
        if punct_at(ts, pos + 1, '>') {
            // Fragment <> ... </>
            let (children, p) = match parse_nodes(ts, pos + 2, true) {
                Ok(cp) => cp,
                Err(e) => return Err(e),
            };
            let q = skip(ts, skip(ts, skip(ts, p, '<'), '/'), '>');
            let node = HtmlNode::Fragment(children);
            if pos < q && q <= ts.len() {
                let rest = parse_nodes(ts, q, inside_tag);
                let ghost rest_g = rest;
                let r = cons_node(node, rest);
                proof {
                    if let Ok((ref w, _)) = r {
                        let v = rest_g->Ok_0.0;
                        lemma_nodes_view_cons(node, v@);
                        assert(w@ =~= seq![node] + v@);
                    }
                }
                return r;
            } else {
                let mut v = Vec::new();
                v.push(node);
                proof {
                    lemma_nodes_view_cons(node, Seq::empty());
                    assert(v@ =~= seq![node] + Seq::<HtmlNode>::empty());
                }
                return Ok((v, q));
            }
        }
        let (node, p) = match parse_element(ts, pos) {
            Ok(np) => np,
            Err(e) => return Err(e),
        };
        if pos < p && p <= ts.len() {
            let rest = parse_nodes(ts, p, inside_tag);
            let ghost rest_g = rest;
            let r = cons_node(node, rest);
            proof {
                if let Ok((ref w, _)) = r {
                    let v = rest_g->Ok_0.0;
                    lemma_nodes_view_cons(node, v@);
                    assert(w@ =~= seq![node] + v@);
                }
            }
            return r;
        } else {
            let mut v = Vec::new();
            v.push(node);
            proof {
                lemma_nodes_view_cons(node, Seq::empty());
                assert(v@ =~= seq![node] + Seq::<HtmlNode>::empty());
            }
            return Ok((v, p));
        }
    }
    if brace_at(ts, pos) {
        let node = match parse_braced_at(ts, pos) {
            Ok(n) => n,
            Err(e) => return Err(e),
        };
        let rest = parse_nodes(ts, pos + 1, inside_tag);
        let ghost rest_g = rest;
        let r = cons_node(node, rest);
        proof {
            if let Ok((ref w, _)) = r {
                let v = rest_g->Ok_0.0;
                lemma_nodes_view_cons(node, v@);
                assert(w@ =~= seq![node] + v@);
            }
        }
        return r;
    }
    // Text content
    let (text, p) = parse_text(ts, pos, String::new());
    if text.unicode_len() > 0 {
        proof {
            lemma_text_run_advances(checked_views(ts@), pos as int, Seq::empty());
        }
        let node = HtmlNode::Text(trim_end_string(&text));
        let rest = parse_nodes(ts, p, inside_tag);
        let ghost rest_g = rest;
        let r = cons_node(node, rest);
        proof {
            if let Ok((ref w, _)) = r {
                let v = rest_g->Ok_0.0;
                lemma_nodes_view_cons(node, v@);
                assert(w@ =~= seq![node] + v@);
            }
        }
        r
    } else {
        proof {
            assert(nodes_view(Seq::<HtmlNode>::empty()) =~= Seq::<NodeView>::empty());
        }
        Ok((Vec::new(), p))
    }
}

/// Parse the element whose `<` is at `pos`.
pub fn parse_element(ts: &Vec<CheckedToken>, pos: usize) -> (r: Result<(HtmlNode, usize), ParseError>)
    requires
        pos <= ts.len(),
    ensures
        match r {
            Ok((node, p)) => element_syntax(checked_views(ts@), pos as int) == Ok::<(NodeView, int), ParseError>((node_view(node), p as int))
                && p <= ts.len(),
            Err(e) => element_syntax(checked_views(ts@), pos as int) == Err::<(NodeView, int), ParseError>(e),
        },
    decreases ts@.len() - pos, 0int,
{
    proof {
        lemma_checked_views(ts@);
    }
    let p0 = skip(ts, pos, '<');
    let tag = match ident_text_at(ts, p0) {
        Some(t) => t.clone(),
        None => return Err(ParseError::ExpectedIdent),
    };
    // Parse attributes
    let (attrs, p1) = match parse_attrs(ts, p0 + 1) {
        Ok(ap) => ap,
        Err(e) => return Err(e),
    };
    proof {
        lemma_parse_attrs_advances(checked_views(ts@), p0 + 1);
    }
    let self_closing = punct_at(ts, p1, '/');
    let p3 = skip(ts, skip(ts, p1, '/'), '>');
    if self_closing {
        let node = HtmlNode::Element { tag, attrs, children: Vec::new(), self_closing: true };
        proof {
            assert(nodes_view(Seq::<HtmlNode>::empty()) =~= Seq::<NodeView>::empty());
        }
        return Ok((node, p3));
    }
    let (children, p4) = match parse_nodes(ts, p3, true) {
        Ok(cp) => cp,
        Err(e) => return Err(e),
    };
    // Closing tag: `<` `/` name `>`
    let p6 = skip(ts, skip(ts, p4, '<'), '/');
    if ident_text_at(ts, p6).is_none() {
        return Err(ParseError::ExpectedIdent);
    }
    let end = skip(ts, p6 + 1, '>');
    Ok((HtmlNode::Element { tag, attrs, children, self_closing: false }, end))
}

/// A parsed template: the nodes of an `html!` invocation.
pub struct HtmlTemplate {
    pub nodes: Vec<HtmlNode>,
}

impl HtmlTemplate {
    /// Parse a whole template; every token must belong to it.
    pub fn parse(ts: &Vec<CheckedToken>) -> (r: Result<HtmlTemplate, ParseError>)
        ensures
            match r {
                Ok(t) => template_syntax(checked_views(ts@)) == Ok::<Seq<NodeView>, ParseError>(nodes_view(t.nodes@)),
                Err(e) => template_syntax(checked_views(ts@)) == Err::<Seq<NodeView>, ParseError>(e),
            },
    {
        proof {
            lemma_checked_views(ts@);
        }
        match parse_nodes(ts, 0, false) {
            Ok((nodes, p)) => if p < ts.len() {
                Err(ParseError::UnexpectedToken)
            } else {
                Ok(HtmlTemplate { nodes })
            },
            Err(e) => Err(e),
        }
    }
}

} // verus!
