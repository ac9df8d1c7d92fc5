//! The `view!` markup language: its tokens, its syntax tree and its parser.
//!
//! Markup such as `<div class="app"><p>"Count: " {count}</p></div>` arrives
//! as a stream of token trees. The parser turns it into a [`ViewNode`] tree
//! of elements, text, embedded expressions, conditionals, loops and
//! components, or reports why it cannot.

use vstd::prelude::*;
use crate::text::{chars_of, string_after, string_between};

verus! {

/// The brackets around a token group.
#[derive(Clone, Copy, PartialEq, Eq, Structural, Debug)]
pub enum Delimiter {
    /// `( ... )`
    Parenthesis,
    /// `{ ... }`
    Brace,
    /// `[ ... ]`
    Bracket,
    /// An invisible group.
    Invisible,
}

/// Whether a punctuation character is followed at once by another one of
/// the same operator (as the first `=` of `==`).
#[derive(Clone, Copy, PartialEq, Eq, Structural, Debug)]
pub enum Spacing {
    Alone,
    Joint,
}

/// A token tree of the markup.
pub enum Token {
    /// An identifier or keyword.
    Ident(String),
    /// A punctuation character.
    Punct(char, Spacing),
    /// A literal, as written in the source (a string literal keeps its
    /// quotes).
    Literal(String),
    /// A bracketed group of tokens.
    Group(Delimiter, Vec<Token>),
}

/// A token as a mathematical value.
pub enum TokenV {
    Ident(Seq<char>),
    Punct(char, Spacing),
    Literal(Seq<char>),
    Group(Delimiter, Seq<TokenV>),
}

/// The value of token `t`.
pub open spec fn token_view(t: Token) -> TokenV
    decreases t,
{
    match t {
        Token::Ident(s) => TokenV::Ident(s@),
        Token::Punct(c, sp) => TokenV::Punct(c, sp),
        Token::Literal(s) => TokenV::Literal(s@),
        Token::Group(d, inner) => TokenV::Group(d, tokens_view(inner@)),
    }
}

/// The values of the tokens of `s`.
pub open spec fn tokens_view(s: Seq<Token>) -> Seq<TokenV>
    decreases s,
{
    if s.len() == 0 {
        seq![]
    } else {
        seq![token_view(s[0])] + tokens_view(s.drop_first())
    }
}

/// `tokens_view` works token by token.
pub proof fn lemma_tokens_view(s: Seq<Token>)
    ensures
        tokens_view(s).len() == s.len(),
        forall|i: int| 0 <= i < s.len() ==> #[trigger] tokens_view(s)[i] == token_view(s[i]),
    decreases s.len(),
{
    if s.len() > 0 {
        lemma_tokens_view(s.drop_first());
        assert forall|i: int| 0 <= i < s.len() implies #[trigger] tokens_view(s)[i] == token_view(s[i]) by {
            if i > 0 {
                assert(tokens_view(s)[i] == tokens_view(s.drop_first())[i - 1]);
            }
        }
    }
}

/// The number of token trees in `t`, counting nested ones.
pub open spec fn token_size(t: TokenV) -> nat
    decreases t,
{
    match t {
        TokenV::Group(_, inner) => 1 + tokens_size(inner),
        _ => 1,
    }
}

/// The number of token trees in `s`, counting nested ones.
pub open spec fn tokens_size(s: Seq<TokenV>) -> nat
    decreases s,
{
    if s.len() == 0 {
        0
    } else {
        token_size(s[0]) + tokens_size(s.drop_first())
    }
}

/// The size of what starts at `pos` is that of the token there and of what
/// follows it.
pub proof fn lemma_size_at(s: Seq<TokenV>, pos: int)
    requires
        0 <= pos < s.len(),
    ensures
        tokens_size(s.skip(pos)) == token_size(s[pos]) + tokens_size(s.skip(pos + 1)),
        token_size(s[pos]) >= 1,
{
    assert(s.skip(pos).drop_first() =~= s.skip(pos + 1));
    assert(s.skip(pos)[0] == s[pos]);
}

/// Less is left after a later position.
pub proof fn lemma_size_shrinks(s: Seq<TokenV>, p: int, q: int)
    requires
        0 <= p <= q <= s.len(),
    ensures
        tokens_size(s.skip(q)) <= tokens_size(s.skip(p)),
        p < q ==> tokens_size(s.skip(q)) < tokens_size(s.skip(p)),
    decreases q - p,
{
    if p < q {
        lemma_size_at(s, p);
        lemma_size_shrinks(s, p + 1, q);
    }
}

/// The tokens inside a group at `pos` are fewer than what starts at `pos`.
pub proof fn lemma_group_smaller(s: Seq<TokenV>, pos: int)
    requires
        0 <= pos < s.len(),
        s[pos] is Group,
    ensures
        tokens_size(s[pos]->Group_1) < tokens_size(s.skip(pos)),
{
    lemma_size_at(s, pos);
}

/// A copy of `t`.
pub fn copy_token(t: &Token) -> (r: Token)
    ensures
        token_view(r) == token_view(*t),
    decreases t,
{
    match t {
        Token::Ident(s) => Token::Ident(s.clone()),
        Token::Punct(c, sp) => Token::Punct(*c, *sp),
        Token::Literal(s) => Token::Literal(s.clone()),
        Token::Group(d, inner) => Token::Group(*d, copy_tokens(inner)),
    }
}

/// A copy of `v`.
pub fn copy_tokens(v: &Vec<Token>) -> (r: Vec<Token>)
    ensures
        tokens_view(r@) == tokens_view(v@),
    decreases v,
{
    let mut r: Vec<Token> = Vec::new();
    let mut i: usize = 0;
    while i < v.len()
        invariant
            i <= v.len(),
            r@.len() == i,
            forall|j: int| 0 <= j < i ==> token_view(#[trigger] r@[j]) == token_view(v@[j]),
        decreases v.len() - i,
    {
        assert(decreases_to!(v => v@[i as int]));
        let t = copy_token(&v[i]);
        r.push(t);
        i = i + 1;
    }
    proof {
        lemma_tokens_view(r@);
        lemma_tokens_view(v@);
        assert(tokens_view(r@) =~= tokens_view(v@));
    }
    r
}

/// An attribute of an element, as a value.
pub enum AttrV {
    /// `name="value"`
    Static(Seq<char>, Seq<char>),
    /// `on:event={handler}` or `onevent={handler}`
    Event(Seq<char>, Seq<TokenV>),
    /// `name={expr}`, kept up to date
    Dynamic(Seq<char>, Seq<TokenV>),
    /// `bind:prop={signal}`
    Bind(Seq<char>, Seq<TokenV>),
    /// `class:name={condition}`
    ClassToggle(Seq<char>, Seq<TokenV>),
}

/// A markup node, as a value.
pub enum NodeV {
    /// `<tag attrs...>children</tag>`
    Element(Seq<char>, Seq<AttrV>, Seq<NodeV>),
    /// A string literal.
    Text(Seq<char>),
    /// `{expr}`
    DynExpr(Seq<TokenV>),
    /// `{if condition { ... } else { ... }}`
    Conditional(Seq<TokenV>, Seq<NodeV>, Seq<NodeV>),
    /// `{for binding in iterable { ... }}`
    EachLoop(Seq<TokenV>, Seq<TokenV>, Seq<NodeV>),
    /// `<Name prop={value} />`
    Component(Seq<char>, Seq<(Seq<char>, Seq<TokenV>)>),
}

/// Why markup could not be read.
#[derive(Clone, Copy, PartialEq, Eq, Structural, Debug)]
pub enum ViewError {
    /// This punctuation character was expected.
    ExpectedPunct(char),
    /// An identifier was expected.
    ExpectedIdent,
    /// Text must be a string literal.
    NonStringText,
    /// A token that cannot start a node.
    UnexpectedToken,
    /// A closing tag names another element than the one it closes.
    MismatchedClose,
    /// An attribute namespace other than `on:`, `bind:` and `class:`.
    UnknownNamespace,
    /// An attribute value that is neither a string literal nor `{expr}`.
    BadAttrValue,
    /// `{expr}` was expected.
    ExpectedBraced,
    /// Nothing follows an attribute's `=`.
    MissingAttrValue,
    /// `{ view }` is missing after an `if` condition.
    MissingIfBody,
    /// `{ view }` is missing after `else`.
    MissingElseBody,
    /// `{ view }` is missing after `for ... in expression`.
    MissingForBody,
    /// A component's children have no closing tag.
    UnclosedComponent,
    /// The markup holds no node.
    Empty,
    /// The markup's first node is not an element.
    RootNotElement,
    /// The markup has more nodes than generated names can count.
    TooLarge,
}

/// Whether `s[i]` is the punctuation character `c`.
pub open spec fn punct_at(s: Seq<TokenV>, i: int, c: char) -> bool {
    0 <= i < s.len() && s[i] is Punct && s[i]->Punct_0 == c
}

/// Whether `s[i]` is a `{ ... }` group.
pub open spec fn brace_at(s: Seq<TokenV>, i: int) -> bool {
    0 <= i < s.len() && s[i] is Group && s[i]->Group_0 == Delimiter::Brace
}

/// Whether a closing tag `</` starts at `i`.
pub open spec fn closing_at(s: Seq<TokenV>, i: int) -> bool {
    punct_at(s, i, '<') && punct_at(s, i + 1, '/')
}

/// Whether `s[i]` is the identifier `name`.
pub open spec fn ident_is(s: Seq<TokenV>, i: int, name: Seq<char>) -> bool {
    0 <= i < s.len() && s[i] == TokenV::Ident(name)
}

/// A string literal as written: at least its two quotes.
pub open spec fn is_string_literal(raw: Seq<char>) -> bool {
    raw.len() >= 2 && raw[0] == '"' && raw.last() == '"'
}

/// The text of a string literal, without its quotes.
pub open spec fn literal_text(raw: Seq<char>) -> Seq<char> {
    raw.subrange(1, raw.len() - 1)
}

/// Whether `name` starts with an uppercase letter: a component.
pub open spec fn names_component(name: Seq<char>) -> bool {
    name.len() > 0 && uppercase(name[0])
}

/// Whether `c` has the Unicode `Uppercase` property (`char::is_uppercase`).
pub uninterp spec fn uppercase(c: char) -> bool;

/// `char::is_uppercase`: whether `c` has the Unicode `Uppercase` property,
/// named `uppercase`; among ASCII characters exactly `A` to `Z` have it.
#[verifier::external_body]
fn is_uppercase(c: char) -> (r: bool)
    ensures
        r == uppercase(c),
        (c as u32) < 128 ==> (r <==> ('A' <= c && c <= 'Z')),
{
    c.is_uppercase()
}

/// Reads an identifier at `pos`.
pub open spec fn ident_spec(s: Seq<TokenV>, pos: int) -> Result<(Seq<char>, int), ViewError> {
    if 0 <= pos < s.len() && s[pos] is Ident {
        Ok((s[pos]->Ident_0, pos + 1))
    } else {
        Err(ViewError::ExpectedIdent)
    }
}

/// Reads the punctuation character `c` at `pos`.
pub open spec fn punct_spec(s: Seq<TokenV>, pos: int, c: char) -> Result<int, ViewError> {
    if punct_at(s, pos, c) {
        Ok(pos + 1)
    } else {
        Err(ViewError::ExpectedPunct(c))
    }
}

/// Reads `{ expr }` at `pos`, giving the tokens inside.
pub open spec fn braced_spec(s: Seq<TokenV>, pos: int) -> Result<(Seq<TokenV>, int), ViewError> {
    if brace_at(s, pos) {
        Ok((s[pos]->Group_1, pos + 1))
    } else {
        Err(ViewError::ExpectedBraced)
    }
}

/// Reads an attribute at `pos`.
pub open spec fn attr_spec(s: Seq<TokenV>, pos: int) -> Result<(AttrV, int), ViewError> {
    match ident_spec(s, pos) {
        Err(e) => Err(e),
        Ok((name, p1)) => if punct_at(s, p1, ':') {
            match ident_spec(s, p1 + 1) {
                Err(e) => Err(e),
                Ok((suffix, p2)) => match punct_spec(s, p2, '=') {
                    Err(e) => Err(e),
                    Ok(p3) => match braced_spec(s, p3) {
                        Err(e) => Err(e),
                        Ok((value, p4)) => if name == "on"@ {
                            Ok((AttrV::Event(suffix, value), p4))
                        } else if name == "bind"@ {
                            Ok((AttrV::Bind(suffix, value), p4))
                        } else if name == "class"@ {
                            Ok((AttrV::ClassToggle(suffix, value), p4))
                        } else {
                            Err(ViewError::UnknownNamespace)
                        },
                    },
                },
            }
        } else {
            match punct_spec(s, p1, '=') {
                Err(e) => Err(e),
                Ok(p2) => if 0 <= p2 < s.len() && s[p2] is Literal {
                    if is_string_literal(s[p2]->Literal_0) {
                        Ok((AttrV::Static(name, literal_text(s[p2]->Literal_0)), p2 + 1))
                    } else {
                        Err(ViewError::BadAttrValue)
                    }
                } else if brace_at(s, p2) {
                    if name.len() >= 2 && name.take(2) == "on"@ {
                        Ok((AttrV::Event(name.skip(2), s[p2]->Group_1), p2 + 1))
                    } else {
                        Ok((AttrV::Dynamic(name, s[p2]->Group_1), p2 + 1))
                    }
                } else {
                    Err(ViewError::MissingAttrValue)
                },
            }
        },
    }
}

/// Reads the attributes of an element up to its `>` (or `/>`, which the
/// flag reports).
pub open spec fn attrs_spec(s: Seq<TokenV>, pos: int) -> Result<(Seq<AttrV>, bool, int), ViewError>
    decreases s.len() - pos,
{
    if punct_at(s, pos, '>') {
        Ok((seq![], false, pos + 1))
    } else if punct_at(s, pos, '/') {
        match punct_spec(s, pos + 1, '>') {
            Err(e) => Err(e),
            Ok(p) => Ok((seq![], true, p)),
        }
    } else {
        match attr_spec(s, pos) {
            Err(e) => Err(e),
            Ok((a, p)) => match attrs_spec(s, p) {
                Err(e) => Err(e),
                Ok((rest, closed, q)) => Ok((seq![a] + rest, closed, q)),
            },
        }
    }
}

/// Reads a closing tag `</name>` at `pos`, giving the position after it.
pub open spec fn close_tag_spec(s: Seq<TokenV>, pos: int, name: Seq<char>) -> Result<int, ViewError> {
    match ident_spec(s, pos + 2) {
        Err(e) => Err(e),
        Ok((close, p)) => if close != name {
            Err(ViewError::MismatchedClose)
        } else {
            punct_spec(s, p, '>')
        },
    }
}

/// Skips a component's children, through its closing tag.
pub open spec fn skip_children_spec(s: Seq<TokenV>, pos: int, name: Seq<char>) -> Result<int, ViewError>
    decreases s.len() - pos,
{
    if pos < 0 || pos >= s.len() {
        Err(ViewError::UnclosedComponent)
    } else if closing_at(s, pos) {
        close_tag_spec(s, pos, name)
    } else {
        skip_children_spec(s, pos + 1, name)
    }
}

/// Reads a component's `key={value}` properties and what ends it.
pub open spec fn props_spec(s: Seq<TokenV>, pos: int, name: Seq<char>) -> Result<
    (Seq<(Seq<char>, Seq<TokenV>)>, int),
    ViewError,
>
    decreases s.len() - pos,
{
    if punct_at(s, pos, '/') {
        match punct_spec(s, pos + 1, '>') {
            Err(e) => Err(e),
            Ok(p) => Ok((seq![], p)),
        }
    } else if punct_at(s, pos, '>') {
        match skip_children_spec(s, pos + 1, name) {
            Err(e) => Err(e),
            Ok(p) => Ok((seq![], p)),
        }
    } else {
        match ident_spec(s, pos) {
            Err(e) => Err(e),
            Ok((key, p1)) => match punct_spec(s, p1, '=') {
                Err(e) => Err(e),
                Ok(p2) => match braced_spec(s, p2) {
                    Err(e) => Err(e),
                    Ok((value, p3)) => match props_spec(s, p3, name) {
                        Err(e) => Err(e),
                        Ok((rest, q)) => Ok((seq![(key, value)] + rest, q)),
                    },
                },
            },
        }
    }
}

/// The first position from `i` on holding a `{ ... }` group, or the end.
pub open spec fn brace_from(t: Seq<TokenV>, i: int) -> int
    decreases t.len() - i,
{
    if i >= t.len() || brace_at(t, i) {
        i
    } else {
        brace_from(t, i + 1)
    }
}

/// The first position from `i` on holding the identifier `in`, or the end.
pub open spec fn in_from(t: Seq<TokenV>, i: int) -> int
    decreases t.len() - i,
{
    if i >= t.len() || ident_is(t, i, "in"@) {
        i
    } else {
        in_from(t, i + 1)
    }
}

/// An attribute list that was read ends after it starts, within the tokens.
pub proof fn lemma_attrs_progress(s: Seq<TokenV>, pos: int)
    requires
        0 <= pos,
        attrs_spec(s, pos) is Ok,
    ensures
        pos < attrs_spec(s, pos)->Ok_0.2 <= s.len(),
    decreases s.len() - pos,
{
    if !punct_at(s, pos, '>') && !punct_at(s, pos, '/') {
        let p = attr_spec(s, pos)->Ok_0.1;
        lemma_attrs_progress(s, p);
    }
}

/// Reads the node at `pos`: `None` at the end of the tokens or at a
/// closing tag `</`.
pub open spec fn node_spec(s: Seq<TokenV>, pos: int) -> Result<Option<(NodeV, int)>, ViewError>
    decreases tokens_size(s.skip(pos)), 1int,
{
    if pos < 0 || pos >= s.len() {
        Ok(None)
    } else if punct_at(s, pos, '<') {
        if punct_at(s, pos + 1, '/') {
            Ok(None)
        } else {
            match element_spec(s, pos) {
                Err(e) => Err(e),
                Ok((n, p)) => Ok(Some((n, p))),
            }
        }
    } else if s[pos] is Literal {
        if is_string_literal(s[pos]->Literal_0) {
            Ok(Some((NodeV::Text(literal_text(s[pos]->Literal_0)), pos + 1)))
        } else {
            Err(ViewError::NonStringText)
        }
    } else if brace_at(s, pos) {
        let inner = s[pos]->Group_1;
        proof {
            lemma_group_smaller(s, pos);
        }
        if ident_is(inner, 0, "if"@) {
            match conditional_spec(inner) {
                Err(e) => Err(e),
                Ok(n) => Ok(Some((n, pos + 1))),
            }
        } else if ident_is(inner, 0, "for"@) {
            match each_spec(inner) {
                Err(e) => Err(e),
                Ok(n) => Ok(Some((n, pos + 1))),
            }
        } else {
            Ok(Some((NodeV::DynExpr(inner), pos + 1)))
        }
    } else {
        Err(ViewError::UnexpectedToken)
    }
}

/// Reads the element (or component) whose `<` is at `pos`.
pub open spec fn element_spec(s: Seq<TokenV>, pos: int) -> Result<(NodeV, int), ViewError>
    decreases tokens_size(s.skip(pos)), 0int,
{
    match punct_spec(s, pos, '<') {
        Err(e) => Err(e),
        Ok(p1) => match ident_spec(s, p1) {
            Err(e) => Err(e),
            Ok((tag, p2)) => if names_component(tag) {
                match props_spec(s, p2, tag) {
                    Err(e) => Err(e),
                    Ok((props, p3)) => Ok((NodeV::Component(tag, props), p3)),
                }
            } else {
                match attrs_spec(s, p2) {
                    Err(e) => Err(e),
                    Ok((attrs, closed, p3)) => if closed {
                        Ok((NodeV::Element(tag, attrs, seq![]), p3))
                    } else {
                        proof {
                            lemma_attrs_progress(s, p2);
                            lemma_size_shrinks(s, pos, p3);
                        }
                        match children_spec(s, p3, tag) {
                            Err(e) => Err(e),
                            Ok((children, p4)) => Ok((NodeV::Element(tag, attrs, children), p4)),
                        }
                    },
                }
            },
        },
    }
}

/// Reads the children of element `tag` from `pos` through its closing tag
/// (or to the end of the tokens).
pub open spec fn children_spec(s: Seq<TokenV>, pos: int, tag: Seq<char>) -> Result<
    (Seq<NodeV>, int),
    ViewError,
>
    decreases tokens_size(s.skip(pos)), 2int,
{
    if closing_at(s, pos) {
        match close_tag_spec(s, pos, tag) {
            Err(e) => Err(e),
            Ok(p) => Ok((seq![], p)),
        }
    } else {
        match node_spec(s, pos) {
            Err(e) => Err(e),
            Ok(None) => Ok((seq![], pos)),
            Ok(Some((n, p))) => if 0 <= pos < p <= s.len() {
                proof {
                    lemma_size_shrinks(s, pos, p);
                }
                match children_spec(s, p, tag) {
                    Err(e) => Err(e),
                    Ok((rest, q)) => Ok((seq![n] + rest, q)),
                }
            } else {
                Ok((seq![n], p))
            },
        }
    }
}

/// Reads nodes from `pos` until the end of the tokens or a closing tag.
pub open spec fn nodes_spec(s: Seq<TokenV>, pos: int) -> Result<Seq<NodeV>, ViewError>
    decreases tokens_size(s.skip(pos)), 2int,
{
    match node_spec(s, pos) {
        Err(e) => Err(e),
        Ok(None) => Ok(seq![]),
        Ok(Some((n, p))) => if 0 <= pos < p <= s.len() {
            proof {
                lemma_size_shrinks(s, pos, p);
            }
            match nodes_spec(s, p) {
                Err(e) => Err(e),
                Ok(rest) => Ok(seq![n] + rest),
            }
        } else {
            Ok(seq![n])
        },
    }
}

/// Reads the nodes of the group at `i` of `t`.
pub open spec fn group_nodes_spec(t: Seq<TokenV>, i: int) -> Result<Seq<NodeV>, ViewError>
    decreases tokens_size(t), 0int,
{
    if 0 <= i < t.len() && t[i] is Group {
        proof {
            lemma_group_smaller(t, i);
            lemma_size_shrinks(t, 0, i);
            assert(t.skip(0) =~= t);
            assert(t[i]->Group_1.skip(0) =~= t[i]->Group_1);
        }
        nodes_spec(t[i]->Group_1, 0)
    } else {
        Err(ViewError::MissingIfBody)
    }
}

/// Reads `if condition { ... } else { ... }`, the tokens of a `{ ... }`
/// node that start with `if`.
pub open spec fn conditional_spec(t: Seq<TokenV>) -> Result<NodeV, ViewError>
    decreases tokens_size(t), 1int,
{
    let c = brace_from(t, 1);
    if c >= t.len() {
        Err(ViewError::MissingIfBody)
    } else {
        match group_nodes_spec(t, c) {
            Err(e) => Err(e),
            Ok(if_true) => {
                if ident_is(t, c + 1, "else"@) {
                    if c + 2 < t.len() && t[c + 2] is Group {
                        match group_nodes_spec(t, c + 2) {
                            Err(e) => Err(e),
                            Ok(if_false) => Ok(NodeV::Conditional(t.subrange(1, c), if_true, if_false)),
                        }
                    } else {
                        Err(ViewError::MissingElseBody)
                    }
                } else {
                    Ok(NodeV::Conditional(t.subrange(1, c), if_true, seq![]))
                }
            },
        }
    }
}

/// Reads `for binding in iterable { ... }`, the tokens of a `{ ... }` node
/// that start with `for`.
pub open spec fn each_spec(t: Seq<TokenV>) -> Result<NodeV, ViewError>
    decreases tokens_size(t), 1int,
{
    let k = in_from(t, 1);
    let cur = if k < t.len() { k + 1 } else { k };
    let c = brace_from(t, cur);
    if c >= t.len() {
        Err(ViewError::MissingForBody)
    } else {
        match group_nodes_spec(t, c) {
            Err(e) => Err(e),
            Ok(body) => Ok(NodeV::EachLoop(t.subrange(1, k), t.subrange(cur, c), body)),
        }
    }
}

/// An attribute of an element.
#[allow(inconsistent_fields)]
pub enum Attr {
    /// `name="value"`
    Static { name: String, value: String },
    /// `on:event={handler}` or `onevent={handler}`
    Event { event: String, handler: Vec<Token> },
    /// `name={expr}`, kept up to date
    Dynamic { name: String, value: Vec<Token> },
    /// `bind:prop={signal}`
    Bind { prop: String, signal: Vec<Token> },
    /// `class:name={condition}`
    ClassToggle { class: String, condition: Vec<Token> },
}

/// A markup node.
pub enum ViewNode {
    /// `<tag attrs...>children</tag>`
    Element { tag: String, attrs: Vec<Attr>, children: Vec<ViewNode> },
    /// A string literal.
    Text(String),
    /// `{expr}`
    DynExpr(Vec<Token>),
    /// `{if condition { ... } else { ... }}`
    Conditional { condition: Vec<Token>, if_true: Vec<ViewNode>, if_false: Vec<ViewNode> },
    /// `{for binding in iterable { ... }}`
    EachLoop { binding: Vec<Token>, iterable: Vec<Token>, body: Vec<ViewNode> },
    /// `<Name prop={value} />`
    Component { name: String, props: Vec<(String, Vec<Token>)> },
}

/// The value of attribute `a`.
pub open spec fn attr_view(a: Attr) -> AttrV {
    match a {
        Attr::Static { name, value } => AttrV::Static(name@, value@),
        Attr::Event { event, handler } => AttrV::Event(event@, tokens_view(handler@)),
        Attr::Dynamic { name, value } => AttrV::Dynamic(name@, tokens_view(value@)),
        Attr::Bind { prop, signal } => AttrV::Bind(prop@, tokens_view(signal@)),
        Attr::ClassToggle { class, condition } => AttrV::ClassToggle(class@, tokens_view(condition@)),
    }
}

/// The values of the attributes of `s`.
pub open spec fn attrs_view(s: Seq<Attr>) -> Seq<AttrV>
    decreases s.len(),
{
    if s.len() == 0 {
        seq![]
    } else {
        seq![attr_view(s[0])] + attrs_view(s.drop_first())
    }
}

/// The values of component properties `s`.
pub open spec fn props_view(s: Seq<(String, Vec<Token>)>) -> Seq<(Seq<char>, Seq<TokenV>)>
    decreases s.len(),
{
    if s.len() == 0 {
        seq![]
    } else {
        seq![(s[0].0@, tokens_view(s[0].1@))] + props_view(s.drop_first())
    }
}

/// The value of node `n`.
pub open spec fn node_view(n: ViewNode) -> NodeV
    decreases n,
{
    match n {
        ViewNode::Element { tag, attrs, children } => NodeV::Element(
            tag@,
            attrs_view(attrs@),
            nodes_view(children@),
        ),
        ViewNode::Text(t) => NodeV::Text(t@),
        ViewNode::DynExpr(e) => NodeV::DynExpr(tokens_view(e@)),
        ViewNode::Conditional { condition, if_true, if_false } => NodeV::Conditional(
            tokens_view(condition@),
            nodes_view(if_true@),
            nodes_view(if_false@),
        ),
        ViewNode::EachLoop { binding, iterable, body } => NodeV::EachLoop(
            tokens_view(binding@),
            tokens_view(iterable@),
            nodes_view(body@),
        ),
        ViewNode::Component { name, props } => NodeV::Component(name@, props_view(props@)),
    }
}

/// The values of the nodes of `s`.
pub open spec fn nodes_view(s: Seq<ViewNode>) -> Seq<NodeV>
    decreases s,
{
    if s.len() == 0 {
        seq![]
    } else {
        seq![node_view(s[0])] + nodes_view(s.drop_first())
    }
}

/// The value of a read position.
pub open spec fn pos_result(r: Result<usize, ViewError>) -> Result<int, ViewError> {
    match r {
        Ok(p) => Ok(p as int),
        Err(e) => Err(e),
    }
}

/// The value of a read name and position.
pub open spec fn name_result(r: Result<(String, usize), ViewError>) -> Result<(Seq<char>, int), ViewError> {
    match r {
        Ok((n, p)) => Ok((n@, p as int)),
        Err(e) => Err(e),
    }
}

/// The value of read tokens and position.
pub open spec fn tokens_result(r: Result<(Vec<Token>, usize), ViewError>) -> Result<
    (Seq<TokenV>, int),
    ViewError,
> {
    match r {
        Ok((v, p)) => Ok((tokens_view(v@), p as int)),
        Err(e) => Err(e),
    }
}

/// The value of a read attribute and position.
pub open spec fn attr_result(r: Result<(Attr, usize), ViewError>) -> Result<(AttrV, int), ViewError> {
    match r {
        Ok((a, p)) => Ok((attr_view(a), p as int)),
        Err(e) => Err(e),
    }
}

/// The value of a read attribute list.
pub open spec fn attrs_result(r: Result<(Vec<Attr>, bool, usize), ViewError>) -> Result<
    (Seq<AttrV>, bool, int),
    ViewError,
> {
    match r {
        Ok((a, c, p)) => Ok((attrs_view(a@), c, p as int)),
        Err(e) => Err(e),
    }
}

/// The value of read component properties.
pub open spec fn props_result(r: Result<(Vec<(String, Vec<Token>)>, usize), ViewError>) -> Result<
    (Seq<(Seq<char>, Seq<TokenV>)>, int),
    ViewError,
> {
    match r {
        Ok((v, p)) => Ok((props_view(v@), p as int)),
        Err(e) => Err(e),
    }
}

/// Whether `s[i]` is the punctuation character `c`.
fn is_punct_at(s: &Vec<Token>, i: usize, c: char) -> (r: bool)
    ensures
        r == punct_at(tokens_view(s@), i as int, c),
{
    proof {
        lemma_tokens_view(s@);
    }
    if i < s.len() {
        match &s[i] {
            Token::Punct(p, _) => *p == c,
            _ => false,
        }
    } else {
        false
    }
}

/// Whether `s[i]` is a `{ ... }` group.
fn is_brace_at(s: &Vec<Token>, i: usize) -> (r: bool)
    ensures
        r == brace_at(tokens_view(s@), i as int),
{
    proof {
        lemma_tokens_view(s@);
    }
    if i < s.len() {
        match &s[i] {
            Token::Group(d, _) => *d == Delimiter::Brace,
            _ => false,
        }
    } else {
        false
    }
}

/// Whether `s[i]` is the identifier `name`.
fn is_ident_at(s: &Vec<Token>, i: usize, name: &str) -> (r: bool)
    ensures
        r == ident_is(tokens_view(s@), i as int, name@),
{
    proof {
        lemma_tokens_view(s@);
    }
    if i < s.len() {
        match &s[i] {
            Token::Ident(id) => *id == String::from_str(name),
            _ => false,
        }
    } else {
        false
    }
}

/// Reads an identifier at `pos`.
fn expect_ident(s: &Vec<Token>, pos: usize) -> (r: Result<(String, usize), ViewError>)
    requires
        pos <= s.len(),
    ensures
        name_result(r) == ident_spec(tokens_view(s@), pos as int),
        r is Ok ==> r->Ok_0.1 <= s.len(),
{
    proof {
        lemma_tokens_view(s@);
    }
    if pos < s.len() {
        match &s[pos] {
            Token::Ident(id) => Ok((id.clone(), pos + 1)),
            _ => Err(ViewError::ExpectedIdent),
        }
    } else {
        Err(ViewError::ExpectedIdent)
    }
}

/// Reads the punctuation character `c` at `pos`.
fn expect_punct(s: &Vec<Token>, pos: usize, c: char) -> (r: Result<usize, ViewError>)
    requires
        pos <= s.len(),
    ensures
        pos_result(r) == punct_spec(tokens_view(s@), pos as int, c),
        r is Ok ==> r->Ok_0 <= s.len(),
{
    if is_punct_at(s, pos, c) {
        proof {
            lemma_tokens_view(s@);
        }
        Ok(pos + 1)
    } else {
        Err(ViewError::ExpectedPunct(c))
    }
}

/// Reads `{ expr }` at `pos`, giving a copy of the tokens inside.
fn expect_braced(s: &Vec<Token>, pos: usize) -> (r: Result<(Vec<Token>, usize), ViewError>)
    requires
        pos <= s.len(),
    ensures
        tokens_result(r) == braced_spec(tokens_view(s@), pos as int),
        r is Ok ==> r->Ok_0.1 <= s.len(),
{
    proof {
        lemma_tokens_view(s@);
    }
    if pos < s.len() {
        match &s[pos] {
            Token::Group(d, inner) => if *d == Delimiter::Brace {
                Ok((copy_tokens(inner), pos + 1))
            } else {
                Err(ViewError::ExpectedBraced)
            },
            _ => Err(ViewError::ExpectedBraced),
        }
    } else {
        Err(ViewError::ExpectedBraced)
    }
}

/// Whether the literal `raw` is a string literal, and its text if so.
fn string_literal_text(raw: &String) -> (r: Option<String>)
    ensures
        r is Some <==> is_string_literal(raw@),
        r is Some ==> r->0@ == literal_text(raw@),
{
    let c = chars_of(raw.as_str());
    if c.len() >= 2 && c[0] == '"' && c[c.len() - 1] == '"' {
        Some(string_between(&c, 1, c.len() - 1))
    } else {
        None
    }
}

/// Reads an attribute at `pos`.
fn parse_attr(s: &Vec<Token>, pos: usize) -> (r: Result<(Attr, usize), ViewError>)
    requires
        pos <= s.len(),
    ensures
        attr_result(r) == attr_spec(tokens_view(s@), pos as int),
{
    let ghost sv = tokens_view(s@);
    proof {
        lemma_tokens_view(s@);
        reveal_strlit("on");
    }
    let (name, p1) = match expect_ident(s, pos) {
        Err(e) => return Err(e),
        Ok(x) => x,
    };
    if is_punct_at(s, p1, ':') {
        let (suffix, p2) = match expect_ident(s, p1 + 1) {
            Err(e) => return Err(e),
            Ok(x) => x,
        };
        let p3 = match expect_punct(s, p2, '=') {
            Err(e) => return Err(e),
            Ok(x) => x,
        };
        let (value, p4) = match expect_braced(s, p3) {
            Err(e) => return Err(e),
            Ok(x) => x,
        };
        if name == String::from_str("on") {
            Ok((Attr::Event { event: suffix, handler: value }, p4))
        } else if name == String::from_str("bind") {
            Ok((Attr::Bind { prop: suffix, signal: value }, p4))
        } else if name == String::from_str("class") {
            Ok((Attr::ClassToggle { class: suffix, condition: value }, p4))
        } else {
            Err(ViewError::UnknownNamespace)
        }
    } else {
        let p2 = match expect_punct(s, p1, '=') {
            Err(e) => return Err(e),
            Ok(x) => x,
        };
        if p2 < s.len() {
            match &s[p2] {
                Token::Literal(raw) => {
                    return match string_literal_text(raw) {
                        Some(value) => Ok((Attr::Static { name, value }, p2 + 1)),
                        None => Err(ViewError::BadAttrValue),
                    };
                },
                _ => {},
            }
        }
        if is_brace_at(s, p2) {
            let (value, p3) = match expect_braced(s, p2) {
                Err(e) => return Err(e),
                Ok(x) => x,
            };
            let c = chars_of(name.as_str());
            if c.len() >= 2 && c[0] == 'o' && c[1] == 'n' {
                assert(name@.take(2) =~= "on"@);
                let event = string_after(&c, 2);
                Ok((Attr::Event { event, handler: value }, p3))
            } else {
                assert(name@.len() >= 2 ==> name@.take(2)[0] == name@[0] && name@.take(2)[1] == name@[1]);
                Ok((Attr::Dynamic { name, value }, p3))
            }
        } else {
            Err(ViewError::MissingAttrValue)
        }
    }
}

/// Reads the attributes of an element up to its `>` or `/>`.
fn parse_attrs(s: &Vec<Token>, pos: usize) -> (r: Result<(Vec<Attr>, bool, usize), ViewError>)
    requires
        pos <= s.len(),
    ensures
        attrs_result(r) == attrs_spec(tokens_view(s@), pos as int),
        r is Ok ==> r->Ok_0.2 <= s.len(),
    decreases s.len() - pos,
{
    proof {
        lemma_tokens_view(s@);
    }
    if is_punct_at(s, pos, '>') {
        assert(attrs_view(Seq::<Attr>::empty()) =~= Seq::<AttrV>::empty());
        return Ok((Vec::new(), false, pos + 1));
    }
    if is_punct_at(s, pos, '/') {
        return match expect_punct(s, pos + 1, '>') {
            Err(e) => Err(e),
            Ok(p) => {
                assert(attrs_view(Seq::<Attr>::empty()) =~= Seq::<AttrV>::empty());
                Ok((Vec::new(), true, p))
            },
        };
    }
    let (a, p) = match parse_attr(s, pos) {
        Err(e) => return Err(e),
        Ok(x) => x,
    };
    assert(pos < p <= s.len());
    match parse_attrs(s, p) {
        Err(e) => Err(e),
        Ok((rest, closed, q)) => {
            let ghost rv = rest@;
            let mut all = rest;
            all.insert(0, a);
            assert(all@.drop_first() =~= rv);
            Ok((all, closed, q))
        },
    }
}

/// Reads the closing tag `</name>` at `pos`.
fn parse_close_tag(s: &Vec<Token>, pos: usize, name: &String) -> (r: Result<usize, ViewError>)
    requires
        pos + 2 <= s.len(),
    ensures
        pos_result(r) == close_tag_spec(tokens_view(s@), pos as int, name@),
        r is Ok ==> r->Ok_0 <= s.len(),
{
    proof {
        lemma_tokens_view(s@);
    }
    let (close, p) = match expect_ident(s, pos + 2) {
        Err(e) => return Err(e),
        Ok(x) => x,
    };
    if close != *name {
        return Err(ViewError::MismatchedClose);
    }
    expect_punct(s, p, '>')
}

/// Skips a component's children through its closing tag.
fn skip_children(s: &Vec<Token>, pos: usize, name: &String) -> (r: Result<usize, ViewError>)
    requires
        pos <= s.len(),
    ensures
        pos_result(r) == skip_children_spec(tokens_view(s@), pos as int, name@),
        r is Ok ==> r->Ok_0 <= s.len(),
    decreases s.len() - pos,
{
    proof {
        lemma_tokens_view(s@);
    }
    if pos >= s.len() {
        return Err(ViewError::UnclosedComponent);
    }
    if is_punct_at(s, pos, '<') && is_punct_at(s, pos + 1, '/') {
        return parse_close_tag(s, pos, name);
    }
    skip_children(s, pos + 1, name)
}

/// Reads a component's properties and what ends it.
fn parse_props(s: &Vec<Token>, pos: usize, name: &String) -> (r: Result<(Vec<(String, Vec<Token>)>, usize), ViewError>)
    requires
        pos <= s.len(),
    ensures
        props_result(r) == props_spec(tokens_view(s@), pos as int, name@),
        r is Ok ==> r->Ok_0.1 <= s.len(),
    decreases s.len() - pos,
{
    proof {
        lemma_tokens_view(s@);
    }
    if is_punct_at(s, pos, '/') {
        return match expect_punct(s, pos + 1, '>') {
            Err(e) => Err(e),
            Ok(p) => {
                assert(props_view(Seq::<(String, Vec<Token>)>::empty()) =~= Seq::<(Seq<char>, Seq<TokenV>)>::empty());
                Ok((Vec::new(), p))
            },
        };
    }
    if is_punct_at(s, pos, '>') {
        return match skip_children(s, pos + 1, name) {
            Err(e) => Err(e),
            Ok(p) => {
                assert(props_view(Seq::<(String, Vec<Token>)>::empty()) =~= Seq::<(Seq<char>, Seq<TokenV>)>::empty());
                Ok((Vec::new(), p))
            },
        };
    }
    let (key, p1) = match expect_ident(s, pos) {
        Err(e) => return Err(e),
        Ok(x) => x,
    };
    let p2 = match expect_punct(s, p1, '=') {
        Err(e) => return Err(e),
        Ok(x) => x,
    };
    let (value, p3) = match expect_braced(s, p2) {
        Err(e) => return Err(e),
        Ok(x) => x,
    };
    match parse_props(s, p3, name) {
        Err(e) => Err(e),
        Ok((rest, q)) => {
            let ghost rv = rest@;
            let mut all = rest;
            all.insert(0, (key, value));
            assert(all@.drop_first() =~= rv);
            Ok((all, q))
        },
    }
}

/// The first position from `i` on holding a `{ ... }` group, or the end.
fn find_brace(t: &Vec<Token>, i: usize) -> (r: usize)
    requires
        i <= t.len(),
    ensures
        r == brace_from(tokens_view(t@), i as int),
        i <= r <= t.len(),
    decreases t.len() - i,
{
    proof {
        lemma_tokens_view(t@);
    }
    if i >= t.len() || is_brace_at(t, i) {
        i
    } else {
        find_brace(t, i + 1)
    }
}

/// The first position from `i` on holding the identifier `in`, or the end.
fn find_in(t: &Vec<Token>, i: usize) -> (r: usize)
    requires
        i <= t.len(),
    ensures
        r == in_from(tokens_view(t@), i as int),
        i <= r <= t.len(),
    decreases t.len() - i,
{
    proof {
        lemma_tokens_view(t@);
    }
    if i >= t.len() || is_ident_at(t, i, "in") {
        i
    } else {
        find_in(t, i + 1)
    }
}

/// The value of a read node, if any, and position.
pub open spec fn node_opt_result(r: Result<Option<(ViewNode, usize)>, ViewError>) -> Result<
    Option<(NodeV, int)>,
    ViewError,
> {
    match r {
        Ok(Some((n, p))) => Ok(Some((node_view(n), p as int))),
        Ok(None) => Ok(None),
        Err(e) => Err(e),
    }
}

/// The value of a read node and position.
pub open spec fn node_result(r: Result<(ViewNode, usize), ViewError>) -> Result<(NodeV, int), ViewError> {
    match r {
        Ok((n, p)) => Ok((node_view(n), p as int)),
        Err(e) => Err(e),
    }
}

/// The value of read nodes and position.
pub open spec fn children_result(r: Result<(Vec<ViewNode>, usize), ViewError>) -> Result<
    (Seq<NodeV>, int),
    ViewError,
> {
    match r {
        Ok((v, p)) => Ok((nodes_view(v@), p as int)),
        Err(e) => Err(e),
    }
}

/// The value of read nodes.
pub open spec fn nodes_result(r: Result<Vec<ViewNode>, ViewError>) -> Result<Seq<NodeV>, ViewError> {
    match r {
        Ok(v) => Ok(nodes_view(v@)),
        Err(e) => Err(e),
    }
}

/// The value of a read node.
pub open spec fn one_result(r: Result<ViewNode, ViewError>) -> Result<NodeV, ViewError> {
    match r {
        Ok(n) => Ok(node_view(n)),
        Err(e) => Err(e),
    }
}

/// A copy of the tokens of `t` from `a` up to `b`.
fn copy_range(t: &Vec<Token>, a: usize, b: usize) -> (r: Vec<Token>)
    requires
        a <= b <= t.len(),
    ensures
        tokens_view(r@) == tokens_view(t@).subrange(a as int, b as int),
{
    let mut r: Vec<Token> = Vec::new();
    let mut i: usize = a;
    while i < b
        invariant
            a <= i <= b <= t.len(),
            r@.len() == i - a,
            forall|j: int| 0 <= j < i - a ==> token_view(#[trigger] r@[j]) == token_view(t@[a + j]),
        decreases b - i,
    {
        let x = copy_token(&t[i]);
        r.push(x);
        i = i + 1;
    }
    proof {
        lemma_tokens_view(r@);
        lemma_tokens_view(t@);
        assert(tokens_view(r@) =~= tokens_view(t@).subrange(a as int, b as int));
    }
    r
}

/// `n` followed by `rest`.
fn prepend(n: ViewNode, rest: Vec<ViewNode>) -> (r: Vec<ViewNode>)
    ensures
        nodes_view(r@) == seq![node_view(n)] + nodes_view(rest@),
{
    let ghost rv = rest@;
    let mut all = rest;
    all.insert(0, n);
    assert(all@.drop_first() =~= rv);
    all
}

/// Reads the node at `pos`: `None` at the end of the tokens or at a
/// closing tag `</`.
fn parse_node(s: &Vec<Token>, pos: usize) -> (r: Result<Option<(ViewNode, usize)>, ViewError>)
    requires
        pos <= s.len(),
    ensures
        node_opt_result(r) == node_spec(tokens_view(s@), pos as int),
        r matches Ok(Some((_, p))) ==> p <= s.len(),
    decreases tokens_size(tokens_view(s@).skip(pos as int)), 1int,
{
    let ghost sv = tokens_view(s@);
    proof {
        lemma_tokens_view(s@);
    }
    if pos >= s.len() {
        return Ok(None);
    }
    if is_punct_at(s, pos, '<') {
        if is_punct_at(s, pos + 1, '/') {
            return Ok(None);
        }
        return match parse_element(s, pos) {
            Err(e) => Err(e),
            Ok((n, p)) => Ok(Some((n, p))),
        };
    }
    match &s[pos] {
        Token::Literal(raw) => {
            match string_literal_text(raw) {
                Some(text) => Ok(Some((ViewNode::Text(text), pos + 1))),
                None => Err(ViewError::NonStringText),
            }
        },
        Token::Group(d, inner) => {
            if *d != Delimiter::Brace {
                return Err(ViewError::UnexpectedToken);
            }
            proof {
                lemma_group_smaller(sv, pos as int);
                lemma_tokens_view(inner@);
            }
            if is_ident_at(inner, 0, "if") {
                match parse_conditional(inner) {
                    Err(e) => Err(e),
                    Ok(n) => Ok(Some((n, pos + 1))),
                }
            } else if is_ident_at(inner, 0, "for") {
                match parse_each(inner) {
                    Err(e) => Err(e),
                    Ok(n) => Ok(Some((n, pos + 1))),
                }
            } else {
                Ok(Some((ViewNode::DynExpr(copy_tokens(inner)), pos + 1)))
            }
        },
        _ => Err(ViewError::UnexpectedToken),
    }
}

/// Reads the element (or component) whose `<` is at `pos`.
fn parse_element(s: &Vec<Token>, pos: usize) -> (r: Result<(ViewNode, usize), ViewError>)
    requires
        pos <= s.len(),
    ensures
        node_result(r) == element_spec(tokens_view(s@), pos as int),
        r is Ok ==> r->Ok_0.1 <= s.len(),
    decreases tokens_size(tokens_view(s@).skip(pos as int)), 0int,
{
    let ghost sv = tokens_view(s@);
    let p1 = match expect_punct(s, pos, '<') {
        Err(e) => return Err(e),
        Ok(x) => x,
    };
    let (tag, p2) = match expect_ident(s, p1) {
        Err(e) => return Err(e),
        Ok(x) => x,
    };
    let tc = chars_of(tag.as_str());
    if tc.len() > 0 && is_uppercase(tc[0]) {
        return match parse_props(s, p2, &tag) {
            Err(e) => Err(e),
            Ok((props, p3)) => Ok((ViewNode::Component { name: tag, props }, p3)),
        };
    }
    let (attrs, closed, p3) = match parse_attrs(s, p2) {
        Err(e) => return Err(e),
        Ok(x) => x,
    };
    if closed {
        let children: Vec<ViewNode> = Vec::new();
        assert(nodes_view(children@) =~= Seq::<NodeV>::empty());
        return Ok((ViewNode::Element { tag, attrs, children }, p3));
    }
    proof {
        lemma_attrs_progress(sv, p2 as int);
        lemma_size_shrinks(sv, pos as int, p3 as int);
    }
    match parse_children(s, p3, &tag) {
        Err(e) => Err(e),
        Ok((children, p4)) => Ok((ViewNode::Element { tag, attrs, children }, p4)),
    }
}

/// Reads the children of element `tag` from `pos` through its closing tag
/// (or to the end of the tokens).
fn parse_children(s: &Vec<Token>, pos: usize, tag: &String) -> (r: Result<(Vec<ViewNode>, usize), ViewError>)
    requires
        pos <= s.len(),
    ensures
        children_result(r) == children_spec(tokens_view(s@), pos as int, tag@),
        r is Ok ==> r->Ok_0.1 <= s.len(),
    decreases tokens_size(tokens_view(s@).skip(pos as int)), 2int,
{
    let ghost sv = tokens_view(s@);
    proof {
        lemma_tokens_view(s@);
    }
    if is_punct_at(s, pos, '<') && is_punct_at(s, pos + 1, '/') {
        return match parse_close_tag(s, pos, tag) {
            Err(e) => Err(e),
            Ok(p) => {
                assert(nodes_view(Seq::<ViewNode>::empty()) =~= Seq::<NodeV>::empty());
                Ok((Vec::new(), p))
            },
        };
    }
    match parse_node(s, pos) {
        Err(e) => Err(e),
        Ok(None) => {
            assert(nodes_view(Seq::<ViewNode>::empty()) =~= Seq::<NodeV>::empty());
            Ok((Vec::new(), pos))
        },
        Ok(Some((n, p))) => {
            if pos < p {
                proof {
                    lemma_size_shrinks(sv, pos as int, p as int);
                }
                match parse_children(s, p, tag) {
                    Err(e) => Err(e),
                    Ok((rest, q)) => Ok((prepend(n, rest), q)),
                }
            } else {
                Ok((prepend(n, Vec::new()), p))
            }
        },
    }
}

/// Reads nodes from `pos` until the end of the tokens or a closing tag.
fn parse_nodes(s: &Vec<Token>, pos: usize) -> (r: Result<Vec<ViewNode>, ViewError>)
    requires
        pos <= s.len(),
    ensures
        nodes_result(r) == nodes_spec(tokens_view(s@), pos as int),
    decreases tokens_size(tokens_view(s@).skip(pos as int)), 2int,
{
    let ghost sv = tokens_view(s@);
    proof {
        lemma_tokens_view(s@);
    }
    match parse_node(s, pos) {
        Err(e) => Err(e),
        Ok(None) => {
            assert(nodes_view(Seq::<ViewNode>::empty()) =~= Seq::<NodeV>::empty());
            Ok(Vec::new())
        },
        Ok(Some((n, p))) => {
            if pos < p {
                proof {
                    lemma_size_shrinks(sv, pos as int, p as int);
                }
                match parse_nodes(s, p) {
                    Err(e) => Err(e),
                    Ok(rest) => Ok(prepend(n, rest)),
                }
            } else {
                Ok(prepend(n, Vec::new()))
            }
        },
    }
}

/// Reads the nodes of the group at `i` of `t`.
fn parse_group_nodes(t: &Vec<Token>, i: usize) -> (r: Result<Vec<ViewNode>, ViewError>)
    requires
        i <= t.len(),
    ensures
        nodes_result(r) == group_nodes_spec(tokens_view(t@), i as int),
    decreases tokens_size(tokens_view(t@)), 0int,
{
    let ghost tv = tokens_view(t@);
    proof {
        lemma_tokens_view(t@);
    }
    if i < t.len() {
        match &t[i] {
            Token::Group(_, inner) => {
                proof {
                    lemma_group_smaller(tv, i as int);
                    lemma_size_shrinks(tv, 0, i as int);
                    assert(tv.skip(0) =~= tv);
                    assert(tokens_view(inner@).skip(0) =~= tokens_view(inner@));
                }
                return parse_nodes(inner, 0);
            },
            _ => {},
        }
    }
    Err(ViewError::MissingIfBody)
}

/// Reads `if condition { ... } else { ... }`, the tokens of a `{ ... }`
/// node that start with `if`.
fn parse_conditional(t: &Vec<Token>) -> (r: Result<ViewNode, ViewError>)
    requires
        t.len() >= 1,
    ensures
        one_result(r) == conditional_spec(tokens_view(t@)),
    decreases tokens_size(tokens_view(t@)), 1int,
{
    let ghost tv = tokens_view(t@);
    proof {
        lemma_tokens_view(t@);
    }
    let c = find_brace(t, 1);
    if c >= t.len() {
        return Err(ViewError::MissingIfBody);
    }
    let if_true = match parse_group_nodes(t, c) {
        Err(e) => return Err(e),
        Ok(x) => x,
    };
    if is_ident_at(t, c + 1, "else") {
        let is_group = c + 2 < t.len() && match &t[c + 2] {
            Token::Group(_, _) => true,
            _ => false,
        };
        if is_group {
            let if_false = match parse_group_nodes(t, c + 2) {
                Err(e) => return Err(e),
                Ok(x) => x,
            };
            Ok(ViewNode::Conditional { condition: copy_range(t, 1, c), if_true, if_false })
        } else {
            Err(ViewError::MissingElseBody)
        }
    } else {
        let if_false: Vec<ViewNode> = Vec::new();
        assert(nodes_view(if_false@) =~= Seq::<NodeV>::empty());
        Ok(ViewNode::Conditional { condition: copy_range(t, 1, c), if_true, if_false })
    }
}

/// Reads `for binding in iterable { ... }`, the tokens of a `{ ... }` node
/// that start with `for`.
fn parse_each(t: &Vec<Token>) -> (r: Result<ViewNode, ViewError>)
    requires
        t.len() >= 1,
    ensures
        one_result(r) == each_spec(tokens_view(t@)),
    decreases tokens_size(tokens_view(t@)), 1int,
{
    proof {
        lemma_tokens_view(t@);
    }
    let k = find_in(t, 1);
    let cur = if k < t.len() { k + 1 } else { k };
    let c = find_brace(t, cur);
    if c >= t.len() {
        return Err(ViewError::MissingForBody);
    }
    let body = match parse_group_nodes(t, c) {
        Err(e) => return Err(e),
        Ok(x) => x,
    };
    Ok(ViewNode::EachLoop { binding: copy_range(t, 1, k), iterable: copy_range(t, cur, c), body })
}

/// `nodes_view` works node by node.
pub proof fn lemma_nodes_view(s: Seq<ViewNode>)
    ensures
        nodes_view(s).len() == s.len(),
        forall|i: int| 0 <= i < s.len() ==> #[trigger] nodes_view(s)[i] == node_view(s[i]),
    decreases s.len(),
{
    if s.len() > 0 {
        lemma_nodes_view(s.drop_first());
        assert forall|i: int| 0 <= i < s.len() implies #[trigger] nodes_view(s)[i] == node_view(s[i]) by {
            if i > 0 {
                assert(nodes_view(s)[i] == nodes_view(s.drop_first())[i - 1]);
            }
        }
    }
}

/// `attrs_view` works attribute by attribute.
pub proof fn lemma_attrs_view(s: Seq<Attr>)
    ensures
        attrs_view(s).len() == s.len(),
        forall|i: int| 0 <= i < s.len() ==> #[trigger] attrs_view(s)[i] == attr_view(s[i]),
    decreases s.len(),
{
    if s.len() > 0 {
        lemma_attrs_view(s.drop_first());
        assert forall|i: int| 0 <= i < s.len() implies #[trigger] attrs_view(s)[i] == attr_view(s[i]) by {
            if i > 0 {
                assert(attrs_view(s)[i] == attrs_view(s.drop_first())[i - 1]);
            }
        }
    }
}

/// What a whole markup gives: its root node, or why there is none.
pub open spec fn view_spec(s: Seq<TokenV>) -> Result<NodeV, ViewError> {
    match node_spec(s, 0) {
        Err(e) => Err(e),
        Ok(None) => Err(ViewError::Empty),
        Ok(Some((n, _))) => Ok(n),
    }
}

/// Reads the markup `tokens`: its first node, which must exist. Tokens after
/// that node are not read.
pub fn parse_view(tokens: &Vec<Token>) -> (r: Result<ViewNode, ViewError>)
    ensures
        one_result(r) == view_spec(tokens_view(tokens@)),
{
    match parse_node(tokens, 0) {
        Err(e) => Err(e),
        Ok(None) => Err(ViewError::Empty),
        Ok(Some((n, _))) => Ok(n),
    }
}

/// The first brace group from `i` on is the one at `j` when none comes
/// between.
pub proof fn lemma_brace_from(t: Seq<TokenV>, i: int, j: int)
    requires
        0 <= i <= j < t.len(),
        brace_at(t, j),
        forall|k: int| i <= k < j ==> !brace_at(t, k),
    ensures
        brace_from(t, i) == j,
    decreases j - i,
{
    if i < j {
        lemma_brace_from(t, i + 1, j);
    }
}

/// The first `in` from `i` on is the one at `j` when none comes between.
pub proof fn lemma_in_from(t: Seq<TokenV>, i: int, j: int)
    requires
        0 <= i <= j < t.len(),
        ident_is(t, j, "in"@),
        forall|k: int| i <= k < j ==> !ident_is(t, k, "in"@),
    ensures
        in_from(t, i) == j,
    decreases j - i,
{
    if i < j {
        lemma_in_from(t, i + 1, j);
    }
}

/// The tokens of `if condition { a } else { b }`.
pub open spec fn if_else_tokens(condition: Seq<TokenV>, a: Seq<TokenV>, b: Seq<TokenV>) -> Seq<TokenV> {
    seq![TokenV::Ident("if"@)] + condition + seq![
        TokenV::Group(Delimiter::Brace, a),
        TokenV::Ident("else"@),
        TokenV::Group(Delimiter::Brace, b),
    ]
}

/// In `if condition { a } else { b }` (a condition holding no brace group),
/// the nodes read from the first group are the ones shown when the
/// condition holds, and the nodes read from the group after `else` the ones
/// shown when it does not.
pub proof fn law_conditional_branches(condition: Seq<TokenV>, a: Seq<TokenV>, b: Seq<TokenV>)
    requires
        forall|k: int| 0 <= k < condition.len() ==> !(#[trigger] condition[k] is Group && condition[k]->Group_0
            == Delimiter::Brace),
        nodes_spec(a, 0) is Ok,
        nodes_spec(b, 0) is Ok,
    ensures
        conditional_spec(if_else_tokens(condition, a, b)) == Ok::<NodeV, ViewError>(
            NodeV::Conditional(condition, nodes_spec(a, 0)->Ok_0, nodes_spec(b, 0)->Ok_0),
        ),
{
    let t = if_else_tokens(condition, a, b);
    let c: int = condition.len() as int + 1;
    assert(t[c] == TokenV::Group(Delimiter::Brace, a));
    assert forall|k: int| 1 <= k < c implies !brace_at(t, k) by {
        assert(t[k] == condition[k - 1]);
    }
    lemma_brace_from(t, 1, c);
    assert(t[c + 1] == TokenV::Ident("else"@));
    assert(t[c + 2] == TokenV::Group(Delimiter::Brace, b));
    assert(t.subrange(1, c) =~= condition);
}

/// The tokens of `if condition { a }`, with no `else`.
pub open spec fn if_tokens(condition: Seq<TokenV>, a: Seq<TokenV>) -> Seq<TokenV> {
    seq![TokenV::Ident("if"@)] + condition + seq![TokenV::Group(Delimiter::Brace, a)]
}

/// In `if condition { a }` with no `else`, the nodes of the group are shown
/// when the condition holds, and nothing when it does not.
pub proof fn law_conditional_without_else(condition: Seq<TokenV>, a: Seq<TokenV>)
    requires
        forall|k: int| 0 <= k < condition.len() ==> !(#[trigger] condition[k] is Group && condition[k]->Group_0
            == Delimiter::Brace),
        nodes_spec(a, 0) is Ok,
    ensures
        conditional_spec(if_tokens(condition, a)) == Ok::<NodeV, ViewError>(
            NodeV::Conditional(condition, nodes_spec(a, 0)->Ok_0, Seq::<NodeV>::empty()),
        ),
{
    let t = if_tokens(condition, a);
    let c: int = condition.len() as int + 1;
    assert(t[c] == TokenV::Group(Delimiter::Brace, a));
    assert forall|k: int| 1 <= k < c implies !brace_at(t, k) by {
        assert(t[k] == condition[k - 1]);
    }
    lemma_brace_from(t, 1, c);
    assert(!ident_is(t, c + 1, "else"@));
    assert(t.subrange(1, c) =~= condition);
}

/// The tokens of `for binding in iterable { body }`.
pub open spec fn for_in_tokens(binding: Seq<TokenV>, iterable: Seq<TokenV>, body: Seq<TokenV>) -> Seq<
    TokenV,
> {
    seq![TokenV::Ident("for"@)] + binding + seq![TokenV::Ident("in"@)] + iterable + seq![
        TokenV::Group(Delimiter::Brace, body),
    ]
}

/// In `for binding in iterable { body }` (a binding without `in`, an
/// iterable holding no brace group), the loop reads the tokens before `in`
/// as its binding, the tokens after it as what it iterates over, and the
/// group's nodes as its body.
pub proof fn law_each_binding_and_iterable(
    binding: Seq<TokenV>,
    iterable: Seq<TokenV>,
    body: Seq<TokenV>,
)
    requires
        forall|k: int| 0 <= k < binding.len() ==> #[trigger] binding[k] != TokenV::Ident("in"@),
        forall|k: int| 0 <= k < iterable.len() ==> !(#[trigger] iterable[k] is Group && iterable[k]->Group_0
            == Delimiter::Brace),
        nodes_spec(body, 0) is Ok,
    ensures
        each_spec(for_in_tokens(binding, iterable, body)) == Ok::<NodeV, ViewError>(
            NodeV::EachLoop(binding, iterable, nodes_spec(body, 0)->Ok_0),
        ),
{
    let t = for_in_tokens(binding, iterable, body);
    let k: int = binding.len() as int + 1;
    let c: int = k + 1 + iterable.len();
    assert(t[k] == TokenV::Ident("in"@));
    assert forall|i: int| 1 <= i < k implies !ident_is(t, i, "in"@) by {
        assert(t[i] == binding[i - 1]);
    }
    lemma_in_from(t, 1, k);
    assert(t[c] == TokenV::Group(Delimiter::Brace, body));
    assert forall|i: int| k + 1 <= i < c implies !brace_at(t, i) by {
        assert(t[i] == iterable[i - k - 1]);
    }
    lemma_brace_from(t, k + 1, c);
    assert(t.subrange(1, k) =~= binding);
    assert(t.subrange(k + 1, c) =~= iterable);
}

} // verus!
