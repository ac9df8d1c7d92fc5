//! What the `view!` markup expands to, as a plan of steps: create each
//! element, set its attributes, wire its events, bindings and reactive
//! parts, and attach it to its parent.
//!
//! Every step that needs a local variable of its own gets a fresh number
//! from one counter, in the order the steps are planned; a number `n` names
//! variables such as `__el_n`. The plan is turned into Rust tokens outside
//! this module, one step at a time.

use vstd::prelude::*;
use crate::view::{
    parse_view, view_spec, one_result, each_spec, for_in_tokens, law_each_binding_and_iterable,
    nodes_spec, Delimiter, conditional_spec, if_else_tokens, law_conditional_branches,
    attr_view, attrs_view, copy_tokens, lemma_attrs_view, lemma_nodes_view, node_view, nodes_view,
    props_view, tokens_view, Attr, AttrV, NodeV, Token, TokenV, ViewError, ViewNode,
};

verus! {

/// Where a node is attached: an element, or the wrapper of a conditional or
/// loop (`__el_n`, `__cr_n`, `__er_n`).
#[derive(Clone, Copy, PartialEq, Eq, Structural, Debug)]
pub enum Place {
    Element(usize),
    Conditional(usize),
    Each(usize),
}

/// A place, as a value.
pub enum PlaceV {
    Element(nat),
    Conditional(nat),
    Each(nat),
}

/// The value of place `p`.
pub open spec fn place_view(p: Place) -> PlaceV {
    match p {
        Place::Element(n) => PlaceV::Element(n as nat),
        Place::Conditional(n) => PlaceV::Conditional(n as nat),
        Place::Each(n) => PlaceV::Each(n as nat),
    }
}

/// One step of the expansion.
#[allow(inconsistent_fields)]
pub enum Step {
    /// `let __el_{el} = create_element(tag);`
    CreateElement { el: usize, tag: String },
    /// `set_attribute(&__el_{el}, name, value);`
    SetAttribute { el: usize, name: String, value: String },
    /// `add_event_listener(&__el_{el}, event, handler);`
    Listen { el: usize, event: String, handler: Vec<Token> },
    /// An effect that keeps attribute `name` equal to the text of `value`
    /// (through `__dyn_{id}`).
    DynamicAttribute { el: usize, id: usize, name: String, value: Vec<Token> },
    /// Two-way binding of `checked` to a boolean signal (through
    /// `__bind_{id}`).
    BindChecked { el: usize, id: usize, signal: Vec<Token> },
    /// Two-way binding of property `prop` to a signal, parsed from the input
    /// text (through `__bind_{id}`).
    BindProperty { el: usize, id: usize, prop: String, signal: Vec<Token> },
    /// An effect that toggles class `class` by `condition` (through
    /// `__cls_{id}`).
    ToggleClass { el: usize, id: usize, class: String, condition: Vec<Token> },
    /// `append_node(&parent, &__el_{el});`
    AppendElement { parent: Place, el: usize },
    /// `append_text(&parent, text);`
    AppendText { parent: Place, text: String },
    /// A text node showing `expr` (`__txt_{id}`): computed once where
    /// `reactive` (the enclosing effect recomputes it), else kept up to
    /// date by an effect of its own (through `__tc_{id}`).
    Text { parent: Place, id: usize, expr: Vec<Token>, reactive: bool },
    /// A wrapper (`__cond_{id}`, `__cr_{id}`) whose effect shows the
    /// `if_true` steps or the `if_false` steps by `condition`.
    Conditional {
        parent: Place,
        id: usize,
        condition: Vec<Token>,
        if_true: Vec<Step>,
        if_false: Vec<Step>,
    },
    /// A wrapper (`__each_{id}`, `__er_{id}`) whose effect runs the `body`
    /// steps for each `binding in iterable`.
    Each { parent: Place, id: usize, binding: Vec<Token>, iterable: Vec<Token>, body: Vec<Step> },
    /// `append_node(&parent, &Component::render(Name { props }))`
    Component { parent: Place, name: String, props: Vec<(String, Vec<Token>)> },
}

/// A step, as a value.
pub enum StepV {
    CreateElement(nat, Seq<char>),
    SetAttribute(nat, Seq<char>, Seq<char>),
    Listen(nat, Seq<char>, Seq<TokenV>),
    DynamicAttribute(nat, nat, Seq<char>, Seq<TokenV>),
    BindChecked(nat, nat, Seq<TokenV>),
    BindProperty(nat, nat, Seq<char>, Seq<TokenV>),
    ToggleClass(nat, nat, Seq<char>, Seq<TokenV>),
    AppendElement(PlaceV, nat),
    AppendText(PlaceV, Seq<char>),
    Text(PlaceV, nat, Seq<TokenV>, bool),
    Conditional(PlaceV, nat, Seq<TokenV>, Seq<StepV>, Seq<StepV>),
    Each(PlaceV, nat, Seq<TokenV>, Seq<TokenV>, Seq<StepV>),
    Component(PlaceV, Seq<char>, Seq<(Seq<char>, Seq<TokenV>)>),
}

/// The value of step `s`.
pub open spec fn step_view(s: Step) -> StepV
    decreases s,
{
    match s {
        Step::CreateElement { el, tag } => StepV::CreateElement(el as nat, tag@),
        Step::SetAttribute { el, name, value } => StepV::SetAttribute(el as nat, name@, value@),
        Step::Listen { el, event, handler } => StepV::Listen(el as nat, event@, tokens_view(handler@)),
        Step::DynamicAttribute { el, id, name, value } => StepV::DynamicAttribute(
            el as nat,
            id as nat,
            name@,
            tokens_view(value@),
        ),
        Step::BindChecked { el, id, signal } => StepV::BindChecked(el as nat, id as nat, tokens_view(signal@)),
        Step::BindProperty { el, id, prop, signal } => StepV::BindProperty(
            el as nat,
            id as nat,
            prop@,
            tokens_view(signal@),
        ),
        Step::ToggleClass { el, id, class, condition } => StepV::ToggleClass(
            el as nat,
            id as nat,
            class@,
            tokens_view(condition@),
        ),
        Step::AppendElement { parent, el } => StepV::AppendElement(place_view(parent), el as nat),
        Step::AppendText { parent, text } => StepV::AppendText(place_view(parent), text@),
        Step::Text { parent, id, expr, reactive } => StepV::Text(
            place_view(parent),
            id as nat,
            tokens_view(expr@),
            reactive,
        ),
        Step::Conditional { parent, id, condition, if_true, if_false } => StepV::Conditional(
            place_view(parent),
            id as nat,
            tokens_view(condition@),
            steps_view(if_true@),
            steps_view(if_false@),
        ),
        Step::Each { parent, id, binding, iterable, body } => StepV::Each(
            place_view(parent),
            id as nat,
            tokens_view(binding@),
            tokens_view(iterable@),
            steps_view(body@),
        ),
        Step::Component { parent, name, props } => StepV::Component(place_view(parent), name@, props_view(props@)),
    }
}

/// The values of steps `s`.
pub open spec fn steps_view(s: Seq<Step>) -> Seq<StepV>
    decreases s,
{
    if s.len() == 0 {
        seq![]
    } else {
        seq![step_view(s[0])] + steps_view(s.drop_first())
    }
}

/// `steps_view` works step by step.
pub proof fn lemma_steps_view(s: Seq<Step>)
    ensures
        steps_view(s).len() == s.len(),
        forall|i: int| 0 <= i < s.len() ==> #[trigger] steps_view(s)[i] == step_view(s[i]),
    decreases s.len(),
{
    if s.len() > 0 {
        lemma_steps_view(s.drop_first());
        assert forall|i: int| 0 <= i < s.len() implies #[trigger] steps_view(s)[i] == step_view(s[i]) by {
            if i > 0 {
                assert(steps_view(s)[i] == steps_view(s.drop_first())[i - 1]);
            }
        }
    }
}

/// `steps_view` of joined steps.
pub proof fn lemma_steps_view_add(a: Seq<Step>, b: Seq<Step>)
    ensures
        steps_view(a + b) == steps_view(a) + steps_view(b),
{
    lemma_steps_view(a);
    lemma_steps_view(b);
    lemma_steps_view(a + b);
    assert(steps_view(a + b) =~= steps_view(a) + steps_view(b));
}

/// The steps of attribute `a` of element `el`, numbering from `c`, and the
/// next free number.
pub open spec fn attr_steps(a: AttrV, el: nat, c: nat) -> (Seq<StepV>, nat) {
    match a {
        AttrV::Static(name, value) => (seq![StepV::SetAttribute(el, name, value)], c),
        AttrV::Event(event, handler) => (seq![StepV::Listen(el, event, handler)], c),
        AttrV::Dynamic(name, value) => (seq![StepV::DynamicAttribute(el, c, name, value)], c + 1),
        AttrV::Bind(prop, signal) => if prop == "checked"@ {
            (seq![StepV::BindChecked(el, c, signal)], c + 1)
        } else {
            (seq![StepV::BindProperty(el, c, prop, signal)], c + 1)
        },
        AttrV::ClassToggle(class, condition) => (seq![StepV::ToggleClass(el, c, class, condition)], c + 1),
    }
}

/// The steps of attributes `s` of element `el`, numbering from `c`.
pub open spec fn attrs_steps(s: Seq<AttrV>, el: nat, c: nat) -> (Seq<StepV>, nat)
    decreases s.len(),
{
    if s.len() == 0 {
        (seq![], c)
    } else {
        let (a, c1) = attr_steps(s[0], el, c);
        let (rest, c2) = attrs_steps(s.drop_first(), el, c1);
        (a + rest, c2)
    }
}

/// The steps that build node `n` and attach it to `p`, numbering from `c`,
/// and the next free number. `reactive` tells whether the steps run inside
/// an effect of an enclosing conditional or loop.
pub open spec fn node_steps(n: NodeV, p: PlaceV, c: nat, reactive: bool) -> (Seq<StepV>, nat)
    decreases n,
{
    match n {
        NodeV::Element(tag, attrs, children) => {
            let (a, c1) = attrs_steps(attrs, c, c + 1);
            let (ch, c2) = children_steps(children, PlaceV::Element(c), c1, reactive);
            (seq![StepV::CreateElement(c, tag)] + a + ch + seq![StepV::AppendElement(p, c)], c2)
        },
        NodeV::Text(text) => (seq![StepV::AppendText(p, text)], c),
        NodeV::DynExpr(expr) => (seq![StepV::Text(p, c, expr, reactive)], c + 1),
        NodeV::Conditional(condition, if_true, if_false) => {
            let (ts, c1) = children_steps(if_true, PlaceV::Conditional(c), c + 1, true);
            let (fs, c2) = children_steps(if_false, PlaceV::Conditional(c), c1, true);
            (seq![StepV::Conditional(p, c, condition, ts, fs)], c2)
        },
        NodeV::EachLoop(binding, iterable, body) => {
            let (bs, c1) = children_steps(body, PlaceV::Each(c), c + 1, true);
            (seq![StepV::Each(p, c, binding, iterable, bs)], c1)
        },
        NodeV::Component(name, props) => (seq![StepV::Component(p, name, props)], c),
    }
}

/// The steps of nodes `s`, in order, attached to `p`, numbering from `c`.
pub open spec fn children_steps(s: Seq<NodeV>, p: PlaceV, c: nat, reactive: bool) -> (Seq<StepV>, nat)
    decreases s,
{
    if s.len() == 0 {
        (seq![], c)
    } else {
        let (first, c1) = node_steps(s[0], p, c, reactive);
        let (rest, c2) = children_steps(s.drop_first(), p, c1, reactive);
        (first + rest, c2)
    }
}

/// How many numbers the attributes `s` take.
pub open spec fn attrs_count(s: Seq<AttrV>) -> nat
    decreases s.len(),
{
    if s.len() == 0 {
        0
    } else {
        (if s[0] is Static || s[0] is Event { 0nat } else { 1nat }) + attrs_count(s.drop_first())
    }
}

/// How many numbers node `n` takes.
pub open spec fn node_count(n: NodeV) -> nat
    decreases n,
{
    match n {
        NodeV::Element(_, attrs, children) => 1 + attrs_count(attrs) + nodes_count(children),
        NodeV::Text(_) => 0,
        NodeV::DynExpr(_) => 1,
        NodeV::Conditional(_, if_true, if_false) => 1 + nodes_count(if_true) + nodes_count(if_false),
        NodeV::EachLoop(_, _, body) => 1 + nodes_count(body),
        NodeV::Component(_, _) => 0,
    }
}

/// How many numbers nodes `s` take.
pub open spec fn nodes_count(s: Seq<NodeV>) -> nat
    decreases s,
{
    if s.len() == 0 {
        0
    } else {
        node_count(s[0]) + nodes_count(s.drop_first())
    }
}

/// Attributes take exactly their count of numbers.
pub proof fn lemma_attrs_count(s: Seq<AttrV>, el: nat, c: nat)
    ensures
        attrs_steps(s, el, c).1 == c + attrs_count(s),
    decreases s.len(),
{
    if s.len() > 0 {
        lemma_attrs_count(s.drop_first(), el, attr_steps(s[0], el, c).1);
    }
}

/// Nodes take exactly their count of numbers.
pub proof fn lemma_node_count(n: NodeV, p: PlaceV, c: nat, reactive: bool)
    ensures
        node_steps(n, p, c, reactive).1 == c + node_count(n),
    decreases n,
{
    match n {
        NodeV::Element(tag, attrs, children) => {
            lemma_attrs_count(attrs, c, c + 1);
            lemma_nodes_count(children, PlaceV::Element(c), attrs_steps(attrs, c, c + 1).1, reactive);
        },
        NodeV::Conditional(condition, if_true, if_false) => {
            lemma_nodes_count(if_true, PlaceV::Conditional(c), c + 1, true);
            lemma_nodes_count(
                if_false,
                PlaceV::Conditional(c),
                children_steps(if_true, PlaceV::Conditional(c), c + 1, true).1,
                true,
            );
        },
        NodeV::EachLoop(binding, iterable, body) => {
            lemma_nodes_count(body, PlaceV::Each(c), c + 1, true);
        },
        _ => {},
    }
}

/// Node lists take exactly their count of numbers.
pub proof fn lemma_nodes_count(s: Seq<NodeV>, p: PlaceV, c: nat, reactive: bool)
    ensures
        children_steps(s, p, c, reactive).1 == c + nodes_count(s),
    decreases s,
{
    if s.len() > 0 {
        lemma_node_count(s[0], p, c, reactive);
        lemma_nodes_count(s.drop_first(), p, node_steps(s[0], p, c, reactive).1, reactive);
    }
}

/// A copy of component properties `v`.
fn copy_props(v: &Vec<(String, Vec<Token>)>) -> (r: Vec<(String, Vec<Token>)>)
    ensures
        props_view(r@) == props_view(v@),
{
    let mut r: Vec<(String, Vec<Token>)> = Vec::new();
    let mut i: usize = v.len();
    assert(v@.skip(v@.len() as int) =~= Seq::<(String, Vec<Token>)>::empty());
    while i > 0
        invariant
            i <= v.len(),
            props_view(r@) == props_view(v@.skip(i as int)),
        decreases i,
    {
        i = i - 1;
        let key = v[i].0.clone();
        let value = copy_tokens(&v[i].1);
        let ghost rv = r@;
        r.insert(0, (key, value));
        assert(r@.drop_first() =~= rv);
        assert(v@.skip(i as int).drop_first() =~= v@.skip(i + 1));
    }
    assert(v@.skip(0) =~= v@);
    r
}

/// How many numbers the attributes of `v` from `i` on take, if that count
/// fits in a `usize`.
fn count_attrs(v: &Vec<Attr>, i: usize) -> (r: Option<usize>)
    requires
        i <= v.len(),
    ensures
        r is Some ==> r->0 == attrs_count(attrs_view(v@).skip(i as int)),
        r is None ==> attrs_count(attrs_view(v@).skip(i as int)) > usize::MAX,
    decreases v.len() - i,
{
    proof {
        lemma_attrs_view(v@);
    }
    let ghost sv = attrs_view(v@).skip(i as int);
    if i >= v.len() {
        assert(sv =~= Seq::<AttrV>::empty());
        return Some(0);
    }
    assert(sv[0] == attr_view(v@[i as int]));
    assert(sv.drop_first() =~= attrs_view(v@).skip(i + 1));
    let own: usize = match &v[i] {
        Attr::Static { .. } => 0,
        Attr::Event { .. } => 0,
        _ => 1,
    };
    match count_attrs(v, i + 1) {
        Some(k) => own.checked_add(k),
        None => None,
    }
}

/// How many numbers node `n` takes, if that count fits in a `usize`.
fn count_node(n: &ViewNode) -> (r: Option<usize>)
    ensures
        r is Some ==> r->0 == node_count(node_view(*n)),
        r is None ==> node_count(node_view(*n)) > usize::MAX,
    decreases n, 0nat,
{
    match n {
        ViewNode::Element { attrs, children, .. } => {
            assert(attrs@.skip(0) =~= attrs@);
            proof {
                lemma_attrs_view(attrs@);
                assert(attrs_view(attrs@).skip(0) =~= attrs_view(attrs@));
                lemma_nodes_view(children@);
                assert(nodes_view(children@).skip(0) =~= nodes_view(children@));
            }
            let a = match count_attrs(attrs, 0) {
                Some(k) => k,
                None => return None,
            };
            let ch = match count_nodes(children, 0) {
                Some(k) => k,
                None => return None,
            };
            match a.checked_add(ch) {
                Some(k) => k.checked_add(1),
                None => None,
            }
        },
        ViewNode::Text(_) => Some(0),
        ViewNode::DynExpr(_) => Some(1),
        ViewNode::Conditional { if_true, if_false, .. } => {
            proof {
                lemma_nodes_view(if_true@);
                assert(nodes_view(if_true@).skip(0) =~= nodes_view(if_true@));
                lemma_nodes_view(if_false@);
                assert(nodes_view(if_false@).skip(0) =~= nodes_view(if_false@));
            }
            let t = match count_nodes(if_true, 0) {
                Some(k) => k,
                None => return None,
            };
            let f = match count_nodes(if_false, 0) {
                Some(k) => k,
                None => return None,
            };
            match t.checked_add(f) {
                Some(k) => k.checked_add(1),
                None => None,
            }
        },
        ViewNode::EachLoop { body, .. } => {
            proof {
                lemma_nodes_view(body@);
                assert(nodes_view(body@).skip(0) =~= nodes_view(body@));
            }
            match count_nodes(body, 0) {
                Some(k) => k.checked_add(1),
                None => None,
            }
        },
        ViewNode::Component { .. } => Some(0),
    }
}

/// How many numbers the nodes of `v` from `i` on take, if that count fits
/// in a `usize`.
fn count_nodes(v: &Vec<ViewNode>, i: usize) -> (r: Option<usize>)
    requires
        i <= v.len(),
    ensures
        r is Some ==> r->0 == nodes_count(nodes_view(v@).skip(i as int)),
        r is None ==> nodes_count(nodes_view(v@).skip(i as int)) > usize::MAX,
    decreases v, v.len() - i,
{
    proof {
        lemma_nodes_view(v@);
    }
    let ghost sv = nodes_view(v@).skip(i as int);
    if i >= v.len() {
        assert(sv =~= Seq::<NodeV>::empty());
        return Some(0);
    }
    assert(sv[0] == node_view(v@[i as int]));
    assert(sv.drop_first() =~= nodes_view(v@).skip(i + 1));
    assert(decreases_to!(v => v@[i as int]));
    let own = match count_node(&v[i]) {
        Some(k) => k,
        None => return None,
    };
    match count_nodes(v, i + 1) {
        Some(k) => own.checked_add(k),
        None => None,
    }
}

/// Appends `step` to `out`.
fn push_step(out: &mut Vec<Step>, step: Step)
    ensures
        steps_view(final(out)@) == steps_view(old(out)@) + seq![step_view(step)],
{
    let ghost before = out@;
    out.push(step);
    proof {
        lemma_steps_view_add(before, seq![step]);
        assert(before + seq![step] =~= out@);
        lemma_steps_view(seq![step]);
        assert(steps_view(seq![step]) =~= seq![step_view(step)]);
    }
}

/// Plans attribute `a` of element `el`, numbering from `*c`.
fn plan_attr(a: &Attr, el: usize, c: &mut usize, out: &mut Vec<Step>)
    requires
        attr_steps(attr_view(*a), el as nat, *old(c) as nat).1 <= usize::MAX,
    ensures
        steps_view(final(out)@) == steps_view(old(out)@) + attr_steps(attr_view(*a), el as nat, *old(c) as nat).0,
        *final(c) == attr_steps(attr_view(*a), el as nat, *old(c) as nat).1,
{
    proof {
        reveal_strlit("checked");
    }
    match a {
        Attr::Static { name, value } => {
            push_step(out, Step::SetAttribute { el, name: name.clone(), value: value.clone() });
        },
        Attr::Event { event, handler } => {
            push_step(out, Step::Listen { el, event: event.clone(), handler: copy_tokens(handler) });
        },
        Attr::Dynamic { name, value } => {
            push_step(out, Step::DynamicAttribute { el, id: *c, name: name.clone(), value: copy_tokens(value) });
            *c = *c + 1;
        },
        Attr::Bind { prop, signal } => {
            if *prop == String::from_str("checked") {
                push_step(out, Step::BindChecked { el, id: *c, signal: copy_tokens(signal) });
            } else {
                push_step(out, Step::BindProperty { el, id: *c, prop: prop.clone(), signal: copy_tokens(signal) });
            }
            *c = *c + 1;
        },
        Attr::ClassToggle { class, condition } => {
            push_step(out, Step::ToggleClass { el, id: *c, class: class.clone(), condition: copy_tokens(condition) });
            *c = *c + 1;
        },
    }
}

/// Plans the attributes of `v` from `i` on, of element `el`.
fn plan_attrs(v: &Vec<Attr>, i: usize, el: usize, c: &mut usize, out: &mut Vec<Step>)
    requires
        i <= v.len(),
        attrs_steps(attrs_view(v@).skip(i as int), el as nat, *old(c) as nat).1 <= usize::MAX,
    ensures
        steps_view(final(out)@) == steps_view(old(out)@) + attrs_steps(attrs_view(v@).skip(i as int), el as nat, *old(c) as nat).0,
        *final(c) == attrs_steps(attrs_view(v@).skip(i as int), el as nat, *old(c) as nat).1,
    decreases v.len() - i,
{
    proof {
        lemma_attrs_view(v@);
    }
    let ghost sv = attrs_view(v@).skip(i as int);
    if i >= v.len() {
        assert(sv =~= Seq::<AttrV>::empty());
        assert(steps_view(out@) + Seq::<StepV>::empty() =~= steps_view(out@));
        return;
    }
    assert(sv[0] == attr_view(v@[i as int]));
    assert(sv.drop_first() =~= attrs_view(v@).skip(i + 1));
    let ghost c0 = *c as nat;
    let ghost o0 = steps_view(out@);
    proof {
        lemma_attrs_count(sv.drop_first(), el as nat, attr_steps(sv[0], el as nat, c0).1);
    }
    plan_attr(&v[i], el, c, out);
    plan_attrs(v, i + 1, el, c, out);
    assert(steps_view(out@) =~= o0 + attrs_steps(sv, el as nat, c0).0);
}

/// Plans node `n`, attached to `p`, numbering from `*c`.
fn plan_node(n: &ViewNode, p: Place, c: &mut usize, reactive: bool, out: &mut Vec<Step>)
    requires
        node_steps(node_view(*n), place_view(p), *old(c) as nat, reactive).1 <= usize::MAX,
    ensures
        steps_view(final(out)@) == steps_view(old(out)@) + node_steps(node_view(*n), place_view(p), *old(c) as nat, reactive).0,
        *final(c) == node_steps(node_view(*n), place_view(p), *old(c) as nat, reactive).1,
    decreases n, 0nat,
{
    let ghost c0 = *c as nat;
    let ghost o0 = steps_view(out@);
    proof {
        lemma_node_count(node_view(*n), place_view(p), c0, reactive);
    }
    match n {
        ViewNode::Element { tag, attrs, children } => {
            let el = *c;
            proof {
                lemma_attrs_count(attrs_view(attrs@), el as nat, (el + 1) as nat);
                assert(attrs_view(attrs@).skip(0) =~= attrs_view(attrs@));
                assert(nodes_view(children@).skip(0) =~= nodes_view(children@));
                lemma_nodes_count(
                    nodes_view(children@),
                    PlaceV::Element(el as nat),
                    attrs_steps(attrs_view(attrs@), el as nat, (el + 1) as nat).1,
                    reactive,
                );
            }
            push_step(out, Step::CreateElement { el, tag: tag.clone() });
            *c = *c + 1;
            plan_attrs(attrs, 0, el, c, out);
            plan_nodes(children, 0, Place::Element(el), c, reactive, out);
            push_step(out, Step::AppendElement { parent: p, el });
            assert(steps_view(out@) =~= o0 + node_steps(node_view(*n), place_view(p), c0, reactive).0);
        },
        ViewNode::Text(text) => {
            push_step(out, Step::AppendText { parent: p, text: text.clone() });
        },
        ViewNode::DynExpr(expr) => {
            push_step(out, Step::Text { parent: p, id: *c, expr: copy_tokens(expr), reactive });
            *c = *c + 1;
        },
        ViewNode::Conditional { condition, if_true, if_false } => {
            let id = *c;
            proof {
                assert(nodes_view(if_true@).skip(0) =~= nodes_view(if_true@));
                assert(nodes_view(if_false@).skip(0) =~= nodes_view(if_false@));
                lemma_nodes_count(nodes_view(if_true@), PlaceV::Conditional(id as nat), (id + 1) as nat, true);
                lemma_nodes_count(
                    nodes_view(if_false@),
                    PlaceV::Conditional(id as nat),
                    children_steps(nodes_view(if_true@), PlaceV::Conditional(id as nat), (id + 1) as nat, true).1,
                    true,
                );
            }
            *c = *c + 1;
            let mut ts: Vec<Step> = Vec::new();
            plan_nodes(if_true, 0, Place::Conditional(id), c, true, &mut ts);
            let mut fs: Vec<Step> = Vec::new();
            plan_nodes(if_false, 0, Place::Conditional(id), c, true, &mut fs);
            assert(steps_view(Seq::<Step>::empty()) =~= Seq::<StepV>::empty());
            push_step(out, Step::Conditional { parent: p, id, condition: copy_tokens(condition), if_true: ts, if_false: fs });
        },
        ViewNode::EachLoop { binding, iterable, body } => {
            let id = *c;
            proof {
                assert(nodes_view(body@).skip(0) =~= nodes_view(body@));
                lemma_nodes_count(nodes_view(body@), PlaceV::Each(id as nat), (id + 1) as nat, true);
            }
            *c = *c + 1;
            let mut bs: Vec<Step> = Vec::new();
            plan_nodes(body, 0, Place::Each(id), c, true, &mut bs);
            assert(steps_view(Seq::<Step>::empty()) =~= Seq::<StepV>::empty());
            push_step(out, Step::Each { parent: p, id, binding: copy_tokens(binding), iterable: copy_tokens(iterable), body: bs });
        },
        ViewNode::Component { name, props } => {
            push_step(out, Step::Component { parent: p, name: name.clone(), props: copy_props(props) });
        },
    }
}

/// Plans the nodes of `v` from `i` on, attached to `p`.
fn plan_nodes(v: &Vec<ViewNode>, i: usize, p: Place, c: &mut usize, reactive: bool, out: &mut Vec<Step>)
    requires
        i <= v.len(),
        children_steps(nodes_view(v@).skip(i as int), place_view(p), *old(c) as nat, reactive).1 <= usize::MAX,
    ensures
        steps_view(final(out)@) == steps_view(old(out)@) + children_steps(nodes_view(v@).skip(i as int), place_view(p), *old(c) as nat, reactive).0,
        *final(c) == children_steps(nodes_view(v@).skip(i as int), place_view(p), *old(c) as nat, reactive).1,
    decreases v, v.len() - i,
{
    proof {
        lemma_nodes_view(v@);
    }
    let ghost sv = nodes_view(v@).skip(i as int);
    if i >= v.len() {
        assert(sv =~= Seq::<NodeV>::empty());
        assert(steps_view(out@) + Seq::<StepV>::empty() =~= steps_view(out@));
        return;
    }
    assert(sv[0] == node_view(v@[i as int]));
    assert(sv.drop_first() =~= nodes_view(v@).skip(i + 1));
    assert(decreases_to!(v => v@[i as int]));
    let ghost c0 = *c as nat;
    let ghost o0 = steps_view(out@);
    proof {
        lemma_node_count(sv[0], place_view(p), c0, reactive);
        lemma_nodes_count(sv.drop_first(), place_view(p), node_steps(sv[0], place_view(p), c0, reactive).1, reactive);
    }
    plan_node(&v[i], p, c, reactive, out);
    plan_nodes(v, i + 1, p, c, reactive, out);
    assert(steps_view(out@) =~= o0 + children_steps(sv, place_view(p), c0, reactive).0);
}

/// The steps of the root node `n`, which must be an element: it is
/// numbered 0 and is the expansion's value, so it is not attached.
pub open spec fn root_steps(n: NodeV) -> Result<(Seq<StepV>, nat), ViewError> {
    match n {
        NodeV::Element(tag, attrs, children) => {
            let (a, c1) = attrs_steps(attrs, 0, 1);
            let (ch, c2) = children_steps(children, PlaceV::Element(0), c1, false);
            Ok((seq![StepV::CreateElement(0, tag)] + a + ch, c2))
        },
        _ => Err(ViewError::RootNotElement),
    }
}

/// What the markup `s` expands to: the steps of its root element (whose
/// variable is `__el_0`), or why it has none.
pub open spec fn expansion(s: Seq<TokenV>) -> Result<Seq<StepV>, ViewError> {
    match view_spec(s) {
        Err(e) => Err(e),
        Ok(n) => if !(n is Element) {
            Err(ViewError::RootNotElement)
        } else if node_count(n) > usize::MAX {
            Err(ViewError::TooLarge)
        } else {
            Ok(root_steps(n)->Ok_0.0)
        },
    }
}

/// The value of planned steps.
pub open spec fn plan_result(r: Result<Vec<Step>, ViewError>) -> Result<Seq<StepV>, ViewError> {
    match r {
        Ok(v) => Ok(steps_view(v@)),
        Err(e) => Err(e),
    }
}

/// Reads the markup `tokens` and plans its expansion: the steps that build
/// its root element, `__el_0`.
pub fn expand_view(tokens: &Vec<Token>) -> (r: Result<Vec<Step>, ViewError>)
    ensures
        plan_result(r) == expansion(tokens_view(tokens@)),
{
    let root = match parse_view(tokens) {
        Err(e) => return Err(e),
        Ok(n) => n,
    };
    let total = match count_node(&root) {
        Some(k) => k,
        None => {
            return match &root {
                ViewNode::Element { .. } => Err(ViewError::TooLarge),
                _ => Err(ViewError::RootNotElement),
            };
        },
    };
    match &root {
        ViewNode::Element { tag, attrs, children } => {
            let ghost nv = node_view(root);
            let mut out: Vec<Step> = Vec::new();
            let mut c: usize = 1;
            proof {
                lemma_attrs_count(attrs_view(attrs@), 0, 1);
                assert(attrs_view(attrs@).skip(0) =~= attrs_view(attrs@));
                assert(nodes_view(children@).skip(0) =~= nodes_view(children@));
                lemma_nodes_count(nodes_view(children@), PlaceV::Element(0), attrs_steps(attrs_view(attrs@), 0, 1).1, false);
            }
            push_step(&mut out, Step::CreateElement { el: 0, tag: tag.clone() });
            plan_attrs(attrs, 0, 0, &mut c, &mut out);
            plan_nodes(children, 0, Place::Element(0), &mut c, false, &mut out);
            proof {
                assert(steps_view(Seq::<Step>::empty()) =~= Seq::<StepV>::empty());
                assert(steps_view(out@) =~= root_steps(nv)->Ok_0.0);
            }
            Ok(out)
        },
        _ => Err(ViewError::RootNotElement),
    }
}

/// The numbers that step `s` (with the steps nested in it) gives to
/// variables of its own, in order.
pub open spec fn step_numbers(s: StepV) -> Seq<nat>
    decreases s,
{
    match s {
        StepV::CreateElement(el, _) => seq![el],
        StepV::DynamicAttribute(_, id, _, _) => seq![id],
        StepV::BindChecked(_, id, _) => seq![id],
        StepV::BindProperty(_, id, _, _) => seq![id],
        StepV::ToggleClass(_, id, _, _) => seq![id],
        StepV::Text(_, id, _, _) => seq![id],
        StepV::Conditional(_, id, _, if_true, if_false) => seq![id] + numbers(if_true) + numbers(if_false),
        StepV::Each(_, id, _, _, body) => seq![id] + numbers(body),
        _ => seq![],
    }
}

/// The numbers that steps `s` give to variables, in order.
pub open spec fn numbers(s: Seq<StepV>) -> Seq<nat>
    decreases s,
{
    if s.len() == 0 {
        seq![]
    } else {
        step_numbers(s[0]) + numbers(s.drop_first())
    }
}

/// The `n` numbers from `c` on: `c, c + 1, ..., c + n - 1`.
pub open spec fn numbers_from(c: nat, n: nat) -> Seq<nat> {
    Seq::new(n, |i: int| (c + i) as nat)
}

proof fn lemma_numbers_one(x: StepV)
    ensures
        numbers(seq![x]) == step_numbers(x),
{
    let s = seq![x];
    assert(s.drop_first() =~= Seq::<StepV>::empty());
    assert(numbers(s.drop_first()) == Seq::<nat>::empty());
    assert(s[0] == x);
    assert(numbers(s) =~= step_numbers(x));
}

proof fn lemma_numbers_add(a: Seq<StepV>, b: Seq<StepV>)
    ensures
        numbers(a + b) == numbers(a) + numbers(b),
    decreases a.len(),
{
    if a.len() == 0 {
        assert(a + b =~= b);
    } else {
        assert((a + b).drop_first() =~= a.drop_first() + b);
        lemma_numbers_add(a.drop_first(), b);
        assert(numbers(a + b) =~= numbers(a) + numbers(b));
    }
}

proof fn lemma_numbers_from_join(c: nat, m: nat, k: nat)
    ensures
        numbers_from(c, m) + numbers_from(c + m, k) == numbers_from(c, m + k),
{
    assert(numbers_from(c, m) + numbers_from(c + m, k) =~= numbers_from(c, m + k));
}

proof fn lemma_attrs_numbers(s: Seq<AttrV>, el: nat, c: nat)
    ensures
        numbers(attrs_steps(s, el, c).0) == numbers_from(c, attrs_count(s)),
    decreases s.len(),
{
    if s.len() == 0 {
        assert(numbers_from(c, 0) =~= Seq::<nat>::empty());
    } else {
        let (a, c1) = attr_steps(s[0], el, c);
        lemma_attrs_numbers(s.drop_first(), el, c1);
        lemma_attrs_count(s.drop_first(), el, c1);
        lemma_numbers_add(a, attrs_steps(s.drop_first(), el, c1).0);
        lemma_numbers_one(a[0]);
        assert(a =~= seq![a[0]]);
        if c1 == c {
            assert(numbers(a) =~= numbers_from(c, 0));
        } else {
            assert(numbers(a) =~= numbers_from(c, 1));
        }
        lemma_numbers_from_join(c, (c1 - c) as nat, attrs_count(s.drop_first()));
    }
}

proof fn lemma_node_numbers(n: NodeV, p: PlaceV, c: nat, reactive: bool)
    ensures
        numbers(node_steps(n, p, c, reactive).0) == numbers_from(c, node_count(n)),
    decreases n,
{
    match n {
        NodeV::Element(tag, attrs, children) => {
            let (a, c1) = attrs_steps(attrs, c, c + 1);
            let (ch, c2) = children_steps(children, PlaceV::Element(c), c1, reactive);
            lemma_attrs_numbers(attrs, c, c + 1);
            lemma_attrs_count(attrs, c, c + 1);
            lemma_nodes_numbers(children, PlaceV::Element(c), c1, reactive);
            let first = seq![StepV::CreateElement(c, tag)];
            let last = seq![StepV::AppendElement(p, c)];
            lemma_numbers_add(first, a);
            lemma_numbers_add(first + a, ch);
            lemma_numbers_add(first + a + ch, last);
            lemma_numbers_one(StepV::CreateElement(c, tag));
            lemma_numbers_one(StepV::AppendElement(p, c));
            assert(numbers(first) =~= seq![c]);
            assert(numbers(last) =~= Seq::<nat>::empty());
            lemma_numbers_from_join(c, 1, attrs_count(attrs));
            lemma_numbers_from_join(c, 1 + attrs_count(attrs), nodes_count(children));
            assert(seq![c] =~= numbers_from(c, 1));
            assert(numbers(node_steps(n, p, c, reactive).0) =~= numbers_from(c, node_count(n)));
        },
        NodeV::Conditional(condition, if_true, if_false) => {
            let (ts, c1) = children_steps(if_true, PlaceV::Conditional(c), c + 1, true);
            lemma_nodes_numbers(if_true, PlaceV::Conditional(c), c + 1, true);
            lemma_nodes_count(if_true, PlaceV::Conditional(c), c + 1, true);
            lemma_nodes_numbers(if_false, PlaceV::Conditional(c), c1, true);
            let st = StepV::Conditional(p, c, condition, ts, children_steps(if_false, PlaceV::Conditional(c), c1, true).0);
            lemma_numbers_one(st);
            lemma_numbers_from_join(c, 1, nodes_count(if_true));
            lemma_numbers_from_join(c, 1 + nodes_count(if_true), nodes_count(if_false));
            assert(seq![c] =~= numbers_from(c, 1));
            assert(numbers(node_steps(n, p, c, reactive).0) =~= numbers_from(c, node_count(n)));
        },
        NodeV::EachLoop(binding, iterable, body) => {
            lemma_nodes_numbers(body, PlaceV::Each(c), c + 1, true);
            let st = StepV::Each(p, c, binding, iterable, children_steps(body, PlaceV::Each(c), c + 1, true).0);
            lemma_numbers_one(st);
            lemma_numbers_from_join(c, 1, nodes_count(body));
            assert(seq![c] =~= numbers_from(c, 1));
            assert(numbers(node_steps(n, p, c, reactive).0) =~= numbers_from(c, node_count(n)));
        },
        NodeV::DynExpr(expr) => {
            let st = StepV::Text(p, c, expr, reactive);
            lemma_numbers_one(st);
            assert(numbers(seq![st]) =~= numbers_from(c, 1));
        },
        NodeV::Text(text) => {
            let st = StepV::AppendText(p, text);
            lemma_numbers_one(st);
            assert(numbers(seq![st]) =~= numbers_from(c, 0));
        },
        NodeV::Component(name, props) => {
            let st = StepV::Component(p, name, props);
            lemma_numbers_one(st);
            assert(numbers(seq![st]) =~= numbers_from(c, 0));
        },
    }
}

proof fn lemma_nodes_numbers(s: Seq<NodeV>, p: PlaceV, c: nat, reactive: bool)
    ensures
        numbers(children_steps(s, p, c, reactive).0) == numbers_from(c, nodes_count(s)),
    decreases s,
{
    if s.len() == 0 {
        assert(numbers_from(c, 0) =~= Seq::<nat>::empty());
    } else {
        let (first, c1) = node_steps(s[0], p, c, reactive);
        lemma_node_numbers(s[0], p, c, reactive);
        lemma_node_count(s[0], p, c, reactive);
        lemma_nodes_numbers(s.drop_first(), p, c1, reactive);
        lemma_numbers_add(first, children_steps(s.drop_first(), p, c1, reactive).0);
        lemma_numbers_from_join(c, node_count(s[0]), nodes_count(s.drop_first()));
    }
}

/// Every variable of an expansion has a number of its own: the numbers
/// given out are `0, 1, 2, ...`, each once, in the order of the steps, so no
/// two generated variables share a name.
pub proof fn law_expansion_names_are_fresh(s: Seq<TokenV>)
    requires
        expansion(s) is Ok,
    ensures
        numbers(expansion(s)->Ok_0) == numbers_from(0, node_count(view_spec(s)->Ok_0)),
        numbers(expansion(s)->Ok_0).no_duplicates(),
{
    let n = view_spec(s)->Ok_0;
    match n {
        NodeV::Element(tag, attrs, children) => {
            let (a, c1) = attrs_steps(attrs, 0, 1);
            let (ch, c2) = children_steps(children, PlaceV::Element(0), c1, false);
            lemma_attrs_numbers(attrs, 0, 1);
            lemma_attrs_count(attrs, 0, 1);
            lemma_nodes_numbers(children, PlaceV::Element(0), c1, false);
            let first = seq![StepV::CreateElement(0, tag)];
            lemma_numbers_add(first, a);
            lemma_numbers_add(first + a, ch);
            lemma_numbers_one(StepV::CreateElement(0, tag));
            assert(numbers(first) =~= seq![0nat]);
            lemma_numbers_from_join(0, 1, attrs_count(attrs));
            lemma_numbers_from_join(0, 1 + attrs_count(attrs), nodes_count(children));
            assert(seq![0nat] =~= numbers_from(0, 1));
            assert(numbers(expansion(s)->Ok_0) =~= numbers_from(0, node_count(n)));
        },
        _ => {},
    }
}

/// The loop planned for `{for binding in iterable { body }}` runs with
/// `binding` as its loop variable over `iterable`: the node plans to one
/// loop step that carries the tokens before `in` as its binding, the tokens
/// after it as what is iterated over, and the steps of the body inside it.
pub proof fn law_each_loop_plan(
    binding: Seq<TokenV>,
    iterable: Seq<TokenV>,
    body: Seq<TokenV>,
    p: PlaceV,
    c: nat,
    reactive: bool,
)
    requires
        forall|k: int| 0 <= k < binding.len() ==> #[trigger] binding[k] != TokenV::Ident("in"@),
        forall|k: int| 0 <= k < iterable.len() ==> !(#[trigger] iterable[k] is Group && iterable[k]->Group_0
            == Delimiter::Brace),
        nodes_spec(body, 0) is Ok,
    ensures
        node_steps(each_spec(for_in_tokens(binding, iterable, body))->Ok_0, p, c, reactive).0 == seq![
            StepV::Each(
                p,
                c,
                binding,
                iterable,
                children_steps(nodes_spec(body, 0)->Ok_0, PlaceV::Each(c), c + 1, true).0,
            ),
        ],
{
    law_each_binding_and_iterable(binding, iterable, body);
}

/// The conditional planned for `{if condition { a } else { b }}` tests the
/// node's condition, builds the steps of the first group when it holds and
/// those of the group after `else` when it does not.
pub proof fn law_conditional_plan(
    condition: Seq<TokenV>,
    a: Seq<TokenV>,
    b: Seq<TokenV>,
    p: PlaceV,
    c: nat,
    reactive: bool,
)
    requires
        forall|k: int| 0 <= k < condition.len() ==> !(#[trigger] condition[k] is Group && condition[k]->Group_0
            == Delimiter::Brace),
        nodes_spec(a, 0) is Ok,
        nodes_spec(b, 0) is Ok,
    ensures
        node_steps(conditional_spec(if_else_tokens(condition, a, b))->Ok_0, p, c, reactive).0 == seq![
            StepV::Conditional(
                p,
                c,
                condition,
                children_steps(nodes_spec(a, 0)->Ok_0, PlaceV::Conditional(c), c + 1, true).0,
                children_steps(
                    nodes_spec(b, 0)->Ok_0,
                    PlaceV::Conditional(c),
                    children_steps(nodes_spec(a, 0)->Ok_0, PlaceV::Conditional(c), c + 1, true).1,
                    true,
                ).0,
            ),
        ],
{
    law_conditional_branches(condition, a, b);
}

} // verus!
