//! Template tokens together with what the Rust parser decides about them:
//! whether an identifier is one, the value of a string literal, and whether
//! the source from a token on is one expression. The grammar reads these
//! decisions as plain values.

use vstd::prelude::*;

use super::{accepts_expr, accepts_ident, lit_str_value, Delimiter, Token, TokenKind};

verus! {

/// The kind of a checked token.
pub enum CheckedKind {
    /// A single punctuation character.
    Punct(char),
    /// An identifier as written, and whether it is an identifier (keywords are not).
    Ident(String, bool),
    /// A literal as written, and its value when it is a string literal.
    Literal(String, Option<String>),
    /// A delimited group and the checked tokens inside it.
    Group(Delimiter, Vec<CheckedToken>),
}

/// A template token with the parser's decisions about it: `rest` is the
/// source from this token to the end of its group, and `rest_is_expr` tells
/// whether that source is one Rust expression.
pub struct CheckedToken {
    pub kind: CheckedKind,
    pub rest: String,
    pub rest_is_expr: bool,
}

/// The kind of a checked token, as characters and sequences.
pub enum CheckedKindView {
    Punct(char),
    Ident(Seq<char>, bool),
    Literal(Seq<char>, Option<Seq<char>>),
    Group(Delimiter, Seq<CheckedView>),
}

/// A checked token, as characters and sequences.
pub struct CheckedView {
    pub kind: CheckedKindView,
    pub rest: Seq<char>,
    pub rest_is_expr: bool,
}

/// The string's characters, if any.
pub open spec fn opt_view(o: Option<String>) -> Option<Seq<char>> {
    match o {
        Some(s) => Some(s@),
        None => None,
    }
}

/// A checked token as a view.
pub open spec fn checked_view(t: CheckedToken) -> CheckedView
    decreases t, 0nat,
{
    CheckedView {
        kind: match t.kind {
            CheckedKind::Punct(c) => CheckedKindView::Punct(c),
            CheckedKind::Ident(s, ok) => CheckedKindView::Ident(s@, ok),
            CheckedKind::Literal(s, v) => CheckedKindView::Literal(s@, opt_view(v)),
            CheckedKind::Group(d, inner) => CheckedKindView::Group(d, checked_views(inner@)),
        },
        rest: t.rest@,
        rest_is_expr: t.rest_is_expr,
    }
}

/// Checked tokens as views.
pub open spec fn checked_views(ts: Seq<CheckedToken>) -> Seq<CheckedView>
    decreases ts, 1nat,
{
    if ts.len() == 0 {
        Seq::empty()
    } else {
        checked_views(ts.drop_last()).push(checked_view(ts.last()))
    }
}

/// The view of a sequence of checked tokens is the sequence of their views.
pub proof fn lemma_checked_views(ts: Seq<CheckedToken>)
    ensures
        checked_views(ts).len() == ts.len(),
        forall|i: int| 0 <= i < ts.len() ==> #[trigger] checked_views(ts)[i] == checked_view(ts[i]),
    decreases ts.len(),
{
    if ts.len() > 0 {
        lemma_checked_views(ts.drop_last());
    }
}

/// A token with no decisions: its kinds and texts only.
pub open spec fn shape(t: Token) -> CheckedView
    decreases t, 0nat,
{
    CheckedView {
        kind: match t.kind {
            TokenKind::Punct(c) => CheckedKindView::Punct(c),
            TokenKind::Ident(s) => CheckedKindView::Ident(s@, false),
            TokenKind::Literal(s) => CheckedKindView::Literal(s@, None),
            TokenKind::Group(d, inner) => CheckedKindView::Group(d, shapes(inner@)),
        },
        rest: t.rest@,
        rest_is_expr: false,
    }
}

/// The tokens with no decisions.
pub open spec fn shapes(ts: Seq<Token>) -> Seq<CheckedView>
    decreases ts, 1nat,
{
    if ts.len() == 0 {
        Seq::empty()
    } else {
        shapes(ts.drop_last()).push(shape(ts.last()))
    }
}

/// A checked token with its decisions dropped: its kinds and texts only.
pub open spec fn unflag(c: CheckedView) -> CheckedView
    decreases c, 0nat,
{
    CheckedView {
        kind: match c.kind {
            CheckedKindView::Punct(x) => CheckedKindView::Punct(x),
            CheckedKindView::Ident(s, _) => CheckedKindView::Ident(s, false),
            CheckedKindView::Literal(s, _) => CheckedKindView::Literal(s, None),
            CheckedKindView::Group(d, inner) => CheckedKindView::Group(d, unflags(inner)),
        },
        rest: c.rest,
        rest_is_expr: false,
    }
}

/// Checked tokens with their decisions dropped.
pub open spec fn unflags(cs: Seq<CheckedView>) -> Seq<CheckedView>
    decreases cs, 1nat,
{
    if cs.len() == 0 {
        Seq::empty()
    } else {
        unflags(cs.drop_last()).push(unflag(cs.last()))
    }
}

proof fn lemma_shapes(ts: Seq<Token>)
    ensures
        shapes(ts).len() == ts.len(),
        forall|i: int| 0 <= i < ts.len() ==> #[trigger] shapes(ts)[i] == shape(ts[i]),
    decreases ts.len(),
{
    if ts.len() > 0 {
        lemma_shapes(ts.drop_last());
    }
}

proof fn lemma_unflags(cs: Seq<CheckedView>)
    ensures
        unflags(cs).len() == cs.len(),
        forall|i: int| 0 <= i < cs.len() ==> #[trigger] unflags(cs)[i] == unflag(cs[i]),
    decreases cs.len(),
{
    if cs.len() > 0 {
        lemma_unflags(cs.drop_last());
    }
}

/// Ask the Rust parser about one token: the checked token carries the
/// token's kinds and texts, with the parser's decisions about them.
fn check_token(t: &Token) -> (r: CheckedToken)
    ensures
        unflag(checked_view(r)) == shape(*t),
    decreases *t, 0nat,
{
    let kind = match &t.kind {
        TokenKind::Punct(c) => CheckedKind::Punct(*c),
        TokenKind::Ident(s) => CheckedKind::Ident(s.clone(), accepts_ident(s.as_str())),
        TokenKind::Literal(s) => CheckedKind::Literal(s.clone(), lit_str_value(s.as_str())),
        TokenKind::Group(d, inner) => CheckedKind::Group(*d, check_tokens(inner)),
    };
    CheckedToken { kind, rest: t.rest.clone(), rest_is_expr: accepts_expr(t.rest.as_str()) }
}

/// Ask the Rust parser about each token of a template: the checked tokens
/// carry the tokens' kinds and texts, with the parser's decisions about them.
pub fn check_tokens(ts: &Vec<Token>) -> (r: Vec<CheckedToken>)
    ensures
        unflags(checked_views(r@)) == shapes(ts@),
    decreases ts@, 1nat,
{
    proof {
        lemma_shapes(ts@);
    }
    let mut out: Vec<CheckedToken> = Vec::new();
    let mut i: usize = 0;
    while i < ts.len()
        invariant
            i <= ts@.len(),
            out@.len() == i,
            shapes(ts@).len() == ts@.len(),
            forall|j: int| 0 <= j < ts@.len() ==> #[trigger] shapes(ts@)[j] == shape(ts@[j]),
            forall|j: int| 0 <= j < i ==> #[trigger] unflag(checked_view(out@[j])) == shape(ts@[j]),
        decreases ts@.len() - i,
    {
        let c = check_token(&ts[i]);
        out.push(c);
        i = i + 1;
    }
    proof {
        lemma_checked_views(out@);
        lemma_unflags(checked_views(out@));
        assert(unflags(checked_views(out@)) =~= shapes(ts@));
    }
    out
}

} // verus!
