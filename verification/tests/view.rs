use oxide::codegen::{expand_view, Place, Step};
use oxide::view::{parse_view, Attr, Delimiter, Spacing, Token, ViewError, ViewNode};

fn id(s: &str) -> Token {
    Token::Ident(s.to_string())
}

fn p(c: char) -> Token {
    Token::Punct(c, Spacing::Alone)
}

fn lit(s: &str) -> Token {
    Token::Literal(format!("\"{}\"", s))
}

fn brace(inner: Vec<Token>) -> Token {
    Token::Group(Delimiter::Brace, inner)
}

fn open(tag: &str) -> Vec<Token> {
    vec![p('<'), id(tag), p('>')]
}

fn close(tag: &str) -> Vec<Token> {
    vec![p('<'), p('/'), id(tag), p('>')]
}

fn join(parts: Vec<Vec<Token>>) -> Vec<Token> {
    parts.into_iter().flatten().collect()
}

fn is_ident(t: &Token, name: &str) -> bool {
    matches!(t, Token::Ident(s) if s == name)
}

#[test]
fn parses_element_with_text_and_expression() {
    // <div class="app"><p>"Count: " {count}</p></div>
    let tokens = join(vec![
        vec![p('<'), id("div"), id("class"), p('='), lit("app"), p('>')],
        open("p"),
        vec![lit("Count: "), brace(vec![id("count")])],
        close("p"),
        close("div"),
    ]);
    match parse_view(&tokens).unwrap() {
        ViewNode::Element { tag, attrs, children } => {
            assert_eq!(tag, "div");
            assert_eq!(attrs.len(), 1);
            assert!(matches!(&attrs[0], Attr::Static { name, value } if name == "class" && value == "app"));
            assert_eq!(children.len(), 1);
            match &children[0] {
                ViewNode::Element { tag, attrs, children } => {
                    assert_eq!(tag, "p");
                    assert!(attrs.is_empty());
                    assert!(matches!(&children[0], ViewNode::Text(t) if t == "Count: "));
                    match &children[1] {
                        ViewNode::DynExpr(e) => assert!(e.len() == 1 && is_ident(&e[0], "count")),
                        _ => panic!("expected an expression"),
                    }
                }
                _ => panic!("expected <p>"),
            }
        }
        _ => panic!("expected an element"),
    }
}

#[test]
fn parses_self_closing_element() {
    let tokens = vec![p('<'), id("br"), p('/'), p('>')];
    match parse_view(&tokens).unwrap() {
        ViewNode::Element { tag, attrs, children } => {
            assert_eq!(tag, "br");
            assert!(attrs.is_empty() && children.is_empty());
        }
        _ => panic!("expected an element"),
    }
}

#[test]
fn parses_attribute_kinds() {
    // <input on:click={f} bind:value={name} class:active={on} onkeyup={g} title={t} />
    let tokens = vec![
        p('<'), id("input"),
        id("on"), p(':'), id("click"), p('='), brace(vec![id("f")]),
        id("bind"), p(':'), id("value"), p('='), brace(vec![id("name")]),
        id("class"), p(':'), id("active"), p('='), brace(vec![id("on")]),
        id("onkeyup"), p('='), brace(vec![id("g")]),
        id("title"), p('='), brace(vec![id("t")]),
        p('/'), p('>'),
    ];
    match parse_view(&tokens).unwrap() {
        ViewNode::Element { attrs, .. } => {
            assert_eq!(attrs.len(), 5);
            assert!(matches!(&attrs[0], Attr::Event { event, .. } if event == "click"));
            assert!(matches!(&attrs[1], Attr::Bind { prop, .. } if prop == "value"));
            assert!(matches!(&attrs[2], Attr::ClassToggle { class, .. } if class == "active"));
            assert!(matches!(&attrs[3], Attr::Event { event, .. } if event == "keyup"));
            assert!(matches!(&attrs[4], Attr::Dynamic { name, .. } if name == "title"));
        }
        _ => panic!("expected an element"),
    }
}

#[test]
fn parses_component_with_props() {
    let tokens = vec![p('<'), id("Counter"), id("start"), p('='), brace(vec![id("five")]), p('/'), p('>')];
    match parse_view(&tokens).unwrap() {
        ViewNode::Component { name, props } => {
            assert_eq!(name, "Counter");
            assert_eq!(props.len(), 1);
            assert_eq!(props[0].0, "start");
        }
        _ => panic!("expected a component"),
    }
}

#[test]
fn component_children_are_skipped() {
    let tokens = join(vec![open("Panel"), vec![lit("ignored")], close("Panel")]);
    match parse_view(&tokens).unwrap() {
        ViewNode::Component { name, props } => {
            assert_eq!(name, "Panel");
            assert!(props.is_empty());
        }
        _ => panic!("expected a component"),
    }
}

#[test]
fn parses_conditional_and_loop() {
    // <ul>{if show { <li>"yes"</li> } else { <li>"no"</li> }}{for x in items { <li>{x}</li> }}</ul>
    let yes = join(vec![open("li"), vec![lit("yes")], close("li")]);
    let no = join(vec![open("li"), vec![lit("no")], close("li")]);
    let each = join(vec![open("li"), vec![brace(vec![id("x")])], close("li")]);
    let tokens = join(vec![
        open("ul"),
        vec![brace(vec![id("if"), id("show"), brace(yes), id("else"), brace(no)])],
        vec![brace(vec![id("for"), id("x"), id("in"), id("items"), brace(each)])],
        close("ul"),
    ]);
    match parse_view(&tokens).unwrap() {
        ViewNode::Element { children, .. } => {
            assert_eq!(children.len(), 2);
            match &children[0] {
                ViewNode::Conditional { condition, if_true, if_false } => {
                    assert!(condition.len() == 1 && is_ident(&condition[0], "show"));
                    assert_eq!(if_true.len(), 1);
                    assert_eq!(if_false.len(), 1);
                }
                _ => panic!("expected a conditional"),
            }
            match &children[1] {
                ViewNode::EachLoop { binding, iterable, body } => {
                    assert!(binding.len() == 1 && is_ident(&binding[0], "x"));
                    assert!(iterable.len() == 1 && is_ident(&iterable[0], "items"));
                    assert_eq!(body.len(), 1);
                }
                _ => panic!("expected a loop"),
            }
        }
        _ => panic!("expected an element"),
    }
}

#[test]
fn unclosed_element_ends_with_the_tokens() {
    let tokens = join(vec![open("div"), vec![lit("a")]]);
    match parse_view(&tokens).unwrap() {
        ViewNode::Element { children, .. } => assert_eq!(children.len(), 1),
        _ => panic!("expected an element"),
    }
}

#[test]
fn parse_errors() {
    assert_eq!(parse_view(&vec![]).err(), Some(ViewError::Empty));
    assert_eq!(parse_view(&join(vec![open("a"), close("b")])).err(), Some(ViewError::MismatchedClose));
    let ns = vec![p('<'), id("a"), id("foo"), p(':'), id("x"), p('='), brace(vec![]), p('>')];
    assert_eq!(parse_view(&ns).err(), Some(ViewError::UnknownNamespace));
    assert_eq!(parse_view(&vec![Token::Literal("42".to_string())]).err(), Some(ViewError::NonStringText));
    assert_eq!(parse_view(&vec![id("x")]).err(), Some(ViewError::UnexpectedToken));
    assert_eq!(parse_view(&join(vec![open("Comp"), vec![lit("x")]])).err(), Some(ViewError::UnclosedComponent));
    let missing = vec![p('<'), id("a"), id("href"), p('='), p('>')];
    assert_eq!(parse_view(&missing).err(), Some(ViewError::MissingAttrValue));
    let bad = vec![p('<'), id("a"), id("href"), p('='), Token::Literal("1".to_string()), p('>')];
    assert_eq!(parse_view(&bad).err(), Some(ViewError::BadAttrValue));
    let no_body = vec![brace(vec![id("if"), id("c")])];
    assert_eq!(parse_view(&no_body).err(), Some(ViewError::MissingIfBody));
    let no_else = vec![brace(vec![id("if"), id("c"), brace(vec![]), id("else")])];
    assert_eq!(parse_view(&no_else).err(), Some(ViewError::MissingElseBody));
    let no_for = vec![brace(vec![id("for"), id("x"), id("in"), id("xs")])];
    assert_eq!(parse_view(&no_for).err(), Some(ViewError::MissingForBody));
    let ns_value = vec![p('<'), id("a"), id("on"), p(':'), id("click"), p('='), lit("f"), p('>')];
    assert_eq!(parse_view(&ns_value).err(), Some(ViewError::ExpectedBraced));
    assert_eq!(parse_view(&vec![p('<'), p('>')]).err(), Some(ViewError::ExpectedIdent));
    assert_eq!(parse_view(&vec![p('<'), id("a"), id("b"), p('>')]).err(), Some(ViewError::ExpectedPunct('=')));
}

#[test]
fn expansion_numbers_variables_in_order() {
    // <div class="c"><p>{x}</p>{if on { "t" }}</div>
    let tokens = join(vec![
        vec![p('<'), id("div"), id("class"), p('='), lit("c"), p('>')],
        open("p"),
        vec![brace(vec![id("x")])],
        close("p"),
        vec![brace(vec![id("if"), id("on"), brace(vec![brace(vec![id("y")])])])],
        close("div"),
    ]);
    let steps = expand_view(&tokens).unwrap();
    assert_eq!(steps.len(), 6);
    assert!(matches!(&steps[0], Step::CreateElement { el: 0, tag } if tag == "div"));
    assert!(matches!(&steps[1], Step::SetAttribute { el: 0, name, value } if name == "class" && value == "c"));
    assert!(matches!(&steps[2], Step::CreateElement { el: 1, tag } if tag == "p"));
    assert!(matches!(&steps[3], Step::Text { parent: Place::Element(1), id: 2, reactive: false, .. }));
    assert!(matches!(&steps[4], Step::AppendElement { parent: Place::Element(0), el: 1 }));
    match &steps[5] {
        Step::Conditional { parent, id, if_true, if_false, .. } => {
            assert_eq!(*parent, Place::Element(0));
            assert_eq!(*id, 3);
            assert!(if_false.is_empty());
            assert_eq!(if_true.len(), 1);
            assert!(matches!(&if_true[0], Step::Text { parent: Place::Conditional(3), id: 4, reactive: true, .. }));
        }
        _ => panic!("expected a conditional"),
    }
}

#[test]
fn expansion_of_bindings() {
    let tokens = vec![
        p('<'), id("input"),
        id("bind"), p(':'), id("checked"), p('='), brace(vec![id("done")]),
        id("bind"), p(':'), id("value"), p('='), brace(vec![id("text")]),
        id("class"), p(':'), id("on"), p('='), brace(vec![id("b")]),
        p('/'), p('>'),
    ];
    let steps = expand_view(&tokens).unwrap();
    assert_eq!(steps.len(), 4);
    assert!(matches!(&steps[1], Step::BindChecked { el: 0, id: 1, .. }));
    assert!(matches!(&steps[2], Step::BindProperty { el: 0, id: 2, prop, .. } if prop == "value"));
    assert!(matches!(&steps[3], Step::ToggleClass { el: 0, id: 3, class, .. } if class == "on"));
}

#[test]
fn expansion_root_must_be_element() {
    assert_eq!(expand_view(&vec![lit("text")]).err(), Some(ViewError::RootNotElement));
    assert_eq!(expand_view(&vec![]).err(), Some(ViewError::Empty));
}
