use oxide::components::{
    alert, alert_display, badge_class_of, button, card, modal, modal_display, severity_icon_text,
    shown_tab, tab_states, text_input, Content, Severity,
};
use oxide::runtime::Signal;

#[test]
fn button_classes() {
    let b = button("Save").primary().build();
    assert_eq!(b.class, "ox-btn ox-btn-primary");
    assert!(!b.disabled);
    assert!(matches!(b.content, Content::Text(ref t) if t == "Save"));

    let b = button("Go").small().build();
    assert_eq!(b.class, "ox-btn ox-btn-secondary ox-btn-sm");
    let b = button("Go").outline().large().build();
    assert_eq!(b.class, "ox-btn ox-btn-outline ox-btn-lg");
    let b = button("Go").danger().disabled(true).build();
    assert_eq!(b.class, "ox-btn ox-btn-danger");
    assert!(b.disabled);
    let b = button("Go").ghost().build();
    assert_eq!(b.class, "ox-btn ox-btn-ghost");
}

#[test]
fn loading_button_shows_spinner_and_is_disabled() {
    let b = button("Wait").loading(true).build();
    assert_eq!(b.class, "ox-btn ox-btn-secondary ox-btn-loading");
    assert!(b.disabled);
    match b.content {
        Content::Html(h) => assert_eq!(h, "<span class=\"ox-spinner-inline\"></span> Wait"),
        Content::Text(_) => panic!("expected markup"),
    }
}

#[test]
fn text_input_settings() {
    let i = text_input("Email").input_type("email").placeholder("you@example.com").required().build();
    assert_eq!(i.label, Some(("Email".to_string(), true)));
    assert_eq!(i.class, "ox-input");
    assert_eq!(i.input_type, "email");
    assert_eq!(i.placeholder, Some("you@example.com".to_string()));
    assert!(i.required);
    assert!(i.error.is_none());
    assert!(i.bound.is_none());

    let i = text_input("").error("bad").bind(Signal { id: 3 }).build();
    assert_eq!(i.label, None);
    assert_eq!(i.class, "ox-input ox-input-error");
    assert_eq!(i.input_type, "text");
    assert_eq!(i.placeholder, None);
    assert_eq!(i.error, Some("bad".to_string()));
    assert_eq!(i.bound.map(|s| s.id), Some(3));
}

#[test]
fn card_parts() {
    let c = card::<u32>("Settings").body(1).footer(2).build();
    assert_eq!(c.header, Some("Settings".to_string()));
    assert_eq!(c.body, Some(1));
    assert_eq!(c.footer, Some(2));
    let c = card::<u32>("").build();
    assert_eq!(c.header, None);
    assert_eq!(c.body, None);
}

#[test]
fn alert_classes_and_icons() {
    let a = alert("Saved").success().build();
    assert_eq!(a.class, "ox-alert ox-alert-success");
    assert_eq!(a.icon, "✓");
    assert_eq!(a.message, "Saved");
    assert!(a.dismiss.is_none());
    let a = alert("Careful").warning().dismissible(Signal { id: 1 }).build();
    assert_eq!(a.class, "ox-alert ox-alert-warning");
    assert_eq!(a.icon, "⚠");
    assert_eq!(a.dismiss.map(|s| s.id), Some(1));
    assert_eq!(alert("x").error().build().icon, "✕");
    assert_eq!(alert("x").build().class, "ox-alert ox-alert-info");
    assert_eq!(severity_icon_text(Severity::Info), "ℹ");
    assert_eq!(alert_display(true), "");
    assert_eq!(alert_display(false), "none");
}

#[test]
fn modal_parts() {
    let m = modal::<u8>(Signal { id: 4 }).title("Confirm").body(9).build();
    assert_eq!(m.open.id, 4);
    assert_eq!(m.header, Some("Confirm".to_string()));
    assert_eq!(m.body, Some(9));
    assert_eq!(modal::<u8>(Signal { id: 0 }).build().header, None);
    assert_eq!(modal_display(true), "flex");
    assert_eq!(modal_display(false), "none");
}

#[test]
fn tabs_mark_the_active_one() {
    let t = tab_states(3, 1);
    assert_eq!(t.len(), 3);
    assert_eq!(t[0].class, "ox-tab-btn");
    assert!(!t[0].selected);
    assert_eq!(t[1].class, "ox-tab-btn ox-tab-active");
    assert!(t[1].selected);
    assert_eq!(shown_tab(3, 1), Some(1));
    assert_eq!(shown_tab(3, 3), None);
    assert!(tab_states(2, 5).iter().all(|s| !s.selected));
}

#[test]
fn badge_classes() {
    assert_eq!(badge_class_of(Severity::Warning), "ox-badge ox-badge-warning");
    assert_eq!(badge_class_of(Severity::Error), "ox-badge ox-badge-error");
}
