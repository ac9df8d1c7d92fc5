//! The component library's decisions: the classes, attributes and content
//! that each component gets from its builder's settings.
//!
//! A builder collects settings; `build` turns them into a description of
//! the element (its class list, flags and content) that the rendering layer
//! creates in the document.

use vstd::prelude::*;
use crate::runtime::Signal;

verus! {

/// A component built from a struct: `render` consumes its properties and
/// gives its element (`<Name prop={value} />` in markup).
pub trait Component<E> {
    fn render(self) -> E;
}

/// A button's look.
#[derive(Clone, Copy, PartialEq, Eq, Structural, Debug)]
pub enum Variant {
    Primary,
    Secondary,
    Outline,
    Danger,
    Transparent,
}

/// A button's size.
#[derive(Clone, Copy, PartialEq, Eq, Structural, Debug)]
pub enum Size {
    Small,
    Medium,
    Large,
}

/// An alert's or badge's kind.
#[derive(Clone, Copy, PartialEq, Eq, Structural, Debug)]
pub enum Severity {
    Success,
    Warning,
    Error,
    Info,
}

/// The class name part of a variant.
pub open spec fn variant_name(v: Variant) -> Seq<char> {
    match v {
        Variant::Primary => "primary"@,
        Variant::Secondary => "secondary"@,
        Variant::Outline => "outline"@,
        Variant::Danger => "danger"@,
        Variant::Transparent => "ghost"@,
    }
}

/// The class added for a size.
pub open spec fn size_class(s: Size) -> Seq<char> {
    match s {
        Size::Small => " ox-btn-sm"@,
        Size::Large => " ox-btn-lg"@,
        Size::Medium => ""@,
    }
}

/// The class name part of a severity.
pub open spec fn severity_name(s: Severity) -> Seq<char> {
    match s {
        Severity::Success => "success"@,
        Severity::Warning => "warning"@,
        Severity::Error => "error"@,
        Severity::Info => "info"@,
    }
}

/// The icon shown for a severity.
pub open spec fn severity_icon(s: Severity) -> Seq<char> {
    match s {
        Severity::Success => "✓"@,
        Severity::Warning => "⚠"@,
        Severity::Error => "✕"@,
        Severity::Info => "ℹ"@,
    }
}

fn variant_text(v: Variant) -> (r: &'static str)
    ensures
        r@ == variant_name(v),
{
    match v {
        Variant::Primary => "primary",
        Variant::Secondary => "secondary",
        Variant::Outline => "outline",
        Variant::Danger => "danger",
        Variant::Transparent => "ghost",
    }
}

fn size_text(s: Size) -> (r: &'static str)
    ensures
        r@ == size_class(s),
{
    match s {
        Size::Small => " ox-btn-sm",
        Size::Large => " ox-btn-lg",
        Size::Medium => "",
    }
}

fn severity_text(s: Severity) -> (r: &'static str)
    ensures
        r@ == severity_name(s),
{
    match s {
        Severity::Success => "success",
        Severity::Warning => "warning",
        Severity::Error => "error",
        Severity::Info => "info",
    }
}

/// The icon shown for `s`.
pub fn severity_icon_text(s: Severity) -> (r: &'static str)
    ensures
        r@ == severity_icon(s),
{
    match s {
        Severity::Success => "✓",
        Severity::Warning => "⚠",
        Severity::Error => "✕",
        Severity::Info => "ℹ",
    }
}

/// What an element shows: plain text, or markup.
pub enum Content {
    Text(String),
    Html(String),
}

/// A button, as it is to be created.
pub struct ButtonSpec {
    /// The class list.
    pub class: String,
    /// Whether the button is disabled.
    pub disabled: bool,
    /// What the button shows.
    pub content: Content,
}

/// The class list of a button.
pub open spec fn button_class(v: Variant, s: Size, loading: bool) -> Seq<char> {
    "ox-btn ox-btn-"@ + variant_name(v) + size_class(s) + (if loading {
        " ox-btn-loading"@
    } else {
        ""@
    })
}

/// The markup of a loading button: an inline spinner, a space, the label.
pub open spec fn loading_markup(label: Seq<char>) -> Seq<char> {
    "<span class=\"ox-spinner-inline\"></span> "@ + label
}

/// Settings of a button.
pub struct ButtonBuilder {
    label: String,
    variant: Variant,
    size: Size,
    loading: bool,
    disabled: bool,
}

/// A button labelled `label`: secondary, medium, neither loading nor
/// disabled.
pub fn button(label: &str) -> (b: ButtonBuilder)
    ensures
        b.label() == label@,
        b.variant() == Variant::Secondary,
        b.size() == Size::Medium,
        !b.is_loading(),
        !b.is_disabled(),
{
    ButtonBuilder {
        label: String::from_str(label),
        variant: Variant::Secondary,
        size: Size::Medium,
        loading: false,
        disabled: false,
    }
}

impl ButtonBuilder {
    pub closed spec fn label(&self) -> Seq<char> {
        self.label@
    }

    pub closed spec fn variant(&self) -> Variant {
        self.variant
    }

    pub closed spec fn size(&self) -> Size {
        self.size
    }

    pub closed spec fn is_loading(&self) -> bool {
        self.loading
    }

    pub closed spec fn is_disabled(&self) -> bool {
        self.disabled
    }

    /// Whether `b` is this builder with variant `v`.
    pub open spec fn with_variant(&self, b: ButtonBuilder, v: Variant) -> bool {
        &&& b.label() == self.label()
        &&& b.variant() == v
        &&& b.size() == self.size()
        &&& b.is_loading() == self.is_loading()
        &&& b.is_disabled() == self.is_disabled()
    }

    /// Whether `b` is this builder with size `s`.
    pub open spec fn with_size(&self, b: ButtonBuilder, s: Size) -> bool {
        &&& b.label() == self.label()
        &&& b.variant() == self.variant()
        &&& b.size() == s
        &&& b.is_loading() == self.is_loading()
        &&& b.is_disabled() == self.is_disabled()
    }

    pub fn primary(self) -> (b: Self)
        ensures
            self.with_variant(b, Variant::Primary),
    {
        ButtonBuilder { variant: Variant::Primary, ..self }
    }

    pub fn outline(self) -> (b: Self)
        ensures
            self.with_variant(b, Variant::Outline),
    {
        ButtonBuilder { variant: Variant::Outline, ..self }
    }

    pub fn danger(self) -> (b: Self)
        ensures
            self.with_variant(b, Variant::Danger),
    {
        ButtonBuilder { variant: Variant::Danger, ..self }
    }

    pub fn ghost(self) -> (b: Self)
        ensures
            self.with_variant(b, Variant::Transparent),
    {
        ButtonBuilder { variant: Variant::Transparent, ..self }
    }

    pub fn small(self) -> (b: Self)
        ensures
            self.with_size(b, Size::Small),
    {
        ButtonBuilder { size: Size::Small, ..self }
    }

    pub fn large(self) -> (b: Self)
        ensures
            self.with_size(b, Size::Large),
    {
        ButtonBuilder { size: Size::Large, ..self }
    }

    /// Shows or hides the loading state.
    pub fn loading(self, v: bool) -> (b: Self)
        ensures
            b.label() == self.label(),
            b.variant() == self.variant(),
            b.size() == self.size(),
            b.is_loading() == v,
            b.is_disabled() == self.is_disabled(),
    {
        ButtonBuilder { loading: v, ..self }
    }

    /// Disables or enables the button.
    pub fn disabled(self, v: bool) -> (b: Self)
        ensures
            b.label() == self.label(),
            b.variant() == self.variant(),
            b.size() == self.size(),
            b.is_loading() == self.is_loading(),
            b.is_disabled() == v,
    {
        ButtonBuilder { disabled: v, ..self }
    }

    /// The button to create: its class list, disabled while disabled or
    /// loading, showing a spinner before the label while loading.
    pub fn build(self) -> (r: ButtonSpec)
        ensures
            r.class@ == button_class(self.variant(), self.size(), self.is_loading()),
            r.disabled == (self.is_disabled() || self.is_loading()),
            self.is_loading() ==> r.content is Html && r.content->Html_0@ == loading_markup(self.label()),
            !self.is_loading() ==> r.content is Text && r.content->Text_0@ == self.label(),
    {
        let mut class = String::from_str("ox-btn ox-btn-");
        class.append(variant_text(self.variant));
        class.append(size_text(self.size));
        if self.loading {
            class.append(" ox-btn-loading");
        } else {
            class.append("");
        }
        let content = if self.loading {
            let mut html = String::from_str("<span class=\"ox-spinner-inline\"></span> ");
            html.append(self.label.as_str());
            Content::Html(html)
        } else {
            Content::Text(self.label)
        };
        ButtonSpec { class, disabled: self.disabled || self.loading, content }
    }
}

/// A labelled text field, as it is to be created.
pub struct InputSpec {
    /// The label text, when there is one, and whether it marks the field
    /// as required.
    pub label: Option<(String, bool)>,
    /// The class list of the input.
    pub class: String,
    /// The input's `type`.
    pub input_type: String,
    /// The placeholder, when there is one.
    pub placeholder: Option<String>,
    /// Whether the input is required.
    pub required: bool,
    /// The signal bound to the input's value, if any.
    pub bound: Option<Signal>,
    /// The error message shown under the input, if any.
    pub error: Option<String>,
}

/// Settings of a text field.
pub struct InputBuilder {
    label: String,
    input_type: String,
    placeholder: String,
    required: bool,
    error_msg: Option<String>,
    signal: Option<Signal>,
}

/// The class list of an input, by whether it shows an error.
pub open spec fn input_class(has_error: bool) -> Seq<char> {
    if has_error { "ox-input ox-input-error"@ } else { "ox-input"@ }
}

/// A text field labelled `label`: of type `text`, with no placeholder, not
/// required, without error and unbound.
pub fn text_input(label: &str) -> (b: InputBuilder)
    ensures
        b.label() == label@,
        b.field_kind() == "text"@,
        b.placeholder_text() == Seq::<char>::empty(),
        !b.is_required(),
        b.error_text() is None,
        b.bound() is None,
{
    InputBuilder {
        label: String::from_str(label),
        input_type: String::from_str("text"),
        placeholder: String::new(),
        required: false,
        error_msg: None,
        signal: None,
    }
}

impl InputBuilder {
    pub closed spec fn label(&self) -> Seq<char> {
        self.label@
    }

    pub closed spec fn field_kind(&self) -> Seq<char> {
        self.input_type@
    }

    pub closed spec fn placeholder_text(&self) -> Seq<char> {
        self.placeholder@
    }

    pub closed spec fn is_required(&self) -> bool {
        self.required
    }

    pub closed spec fn error_text(&self) -> Option<Seq<char>> {
        match self.error_msg {
            Some(m) => Some(m@),
            None => None,
        }
    }

    pub closed spec fn bound(&self) -> Option<Signal> {
        self.signal
    }

    /// Sets the input's type.
    pub fn input_type(self, t: &str) -> (b: Self)
        ensures
            b.field_kind() == t@,
            b.label() == self.label() && b.placeholder_text() == self.placeholder_text(),
            b.is_required() == self.is_required() && b.error_text() == self.error_text() && b.bound() == self.bound(),
    {
        InputBuilder { input_type: String::from_str(t), ..self }
    }

    /// Sets the placeholder.
    pub fn placeholder(self, p: &str) -> (b: Self)
        ensures
            b.placeholder_text() == p@,
            b.label() == self.label() && b.field_kind() == self.field_kind(),
            b.is_required() == self.is_required() && b.error_text() == self.error_text() && b.bound() == self.bound(),
    {
        InputBuilder { placeholder: String::from_str(p), ..self }
    }

    /// Marks the field as required.
    pub fn required(self) -> (b: Self)
        ensures
            b.is_required(),
            b.label() == self.label() && b.field_kind() == self.field_kind() && b.placeholder_text() == self.placeholder_text(),
            b.error_text() == self.error_text() && b.bound() == self.bound(),
    {
        InputBuilder { required: true, ..self }
    }

    /// Shows the error message `msg`.
    pub fn error(self, msg: &str) -> (b: Self)
        ensures
            b.error_text() == Some(msg@),
            b.label() == self.label() && b.field_kind() == self.field_kind() && b.placeholder_text() == self.placeholder_text(),
            b.is_required() == self.is_required() && b.bound() == self.bound(),
    {
        InputBuilder { error_msg: Some(String::from_str(msg)), ..self }
    }

    /// Binds the input's value to `s`, both ways.
    pub fn bind(self, s: Signal) -> (b: Self)
        ensures
            b.bound() == Some(s),
            b.label() == self.label() && b.field_kind() == self.field_kind() && b.placeholder_text() == self.placeholder_text(),
            b.is_required() == self.is_required() && b.error_text() == self.error_text(),
    {
        InputBuilder { signal: Some(s), ..self }
    }

    /// The field to create: a label when the label text is not empty, the
    /// error class when there is an error, a placeholder when it is not
    /// empty.
    pub fn build(self) -> (r: InputSpec)
        ensures
            self.label().len() == 0 <==> r.label is None,
            r.label matches Some((text, req)) ==> text@ == self.label() && req == self.is_required(),
            r.class@ == input_class(self.error_text() is Some),
            r.input_type@ == self.field_kind(),
            self.placeholder_text().len() == 0 <==> r.placeholder is None,
            r.placeholder matches Some(p) ==> p@ == self.placeholder_text(),
            r.required == self.is_required(),
            r.bound == self.bound(),
            r.error is Some <==> self.error_text() is Some,
            r.error matches Some(m) ==> self.error_text() == Some(m@),
    {
        let has_error = self.error_msg.is_some();
        let label = if self.label.as_str().unicode_len() > 0 {
            Some((self.label, self.required))
        } else {
            None
        };
        let placeholder = if self.placeholder.as_str().unicode_len() > 0 {
            Some(self.placeholder)
        } else {
            None
        };
        let class = if has_error {
            String::from_str("ox-input ox-input-error")
        } else {
            String::from_str("ox-input")
        };
        InputSpec {
            label,
            class,
            input_type: self.input_type,
            placeholder,
            required: self.required,
            bound: self.signal,
            error: self.error_msg,
        }
    }
}

/// A card, as it is to be created: a header when the title is not empty,
/// and the body and footer elements.
pub struct CardSpec<E> {
    pub header: Option<String>,
    pub body: Option<E>,
    pub footer: Option<E>,
}

/// Settings of a card.
pub struct CardBuilder<E> {
    title: String,
    body_el: Option<E>,
    footer_el: Option<E>,
}

/// A card titled `title`, without body or footer.
pub fn card<E>(title: &str) -> (b: CardBuilder<E>)
    ensures
        b.title_text() == title@,
        b.body_el() is None,
        b.footer_el() is None,
{
    CardBuilder { title: String::from_str(title), body_el: None, footer_el: None }
}

impl<E> CardBuilder<E> {
    pub closed spec fn title_text(&self) -> Seq<char> {
        self.title@
    }

    pub closed spec fn body_el(&self) -> Option<E> {
        self.body_el
    }

    pub closed spec fn footer_el(&self) -> Option<E> {
        self.footer_el
    }

    /// Sets the body.
    pub fn body(self, el: E) -> (b: Self)
        ensures
            b.title_text() == self.title_text(),
            b.body_el() == Some(el),
            b.footer_el() == self.footer_el(),
    {
        CardBuilder { body_el: Some(el), ..self }
    }

    /// Sets the footer.
    pub fn footer(self, el: E) -> (b: Self)
        ensures
            b.title_text() == self.title_text(),
            b.body_el() == self.body_el(),
            b.footer_el() == Some(el),
    {
        CardBuilder { footer_el: Some(el), ..self }
    }

    /// The card to create.
    pub fn build(self) -> (r: CardSpec<E>)
        ensures
            self.title_text().len() == 0 <==> r.header is None,
            r.header matches Some(h) ==> h@ == self.title_text(),
            r.body == self.body_el(),
            r.footer == self.footer_el(),
    {
        let header = if self.title.as_str().unicode_len() > 0 {
            Some(self.title)
        } else {
            None
        };
        CardSpec { header, body: self.body_el, footer: self.footer_el }
    }
}

/// An alert, as it is to be created.
pub struct AlertSpec {
    /// The class list.
    pub class: String,
    /// The icon before the message.
    pub icon: &'static str,
    /// The message.
    pub message: String,
    /// The signal that shows the alert, when it can be dismissed.
    pub dismiss: Option<Signal>,
}

/// Settings of an alert.
pub struct AlertBuilder {
    message: String,
    severity: Severity,
    dismissible: Option<Signal>,
}

/// The class list of an alert.
pub open spec fn alert_class(s: Severity) -> Seq<char> {
    "ox-alert ox-alert-"@ + severity_name(s)
}

/// An informational alert showing `message`, which cannot be dismissed.
pub fn alert(message: &str) -> (b: AlertBuilder)
    ensures
        b.message() == message@,
        b.severity() == Severity::Info,
        b.dismiss_signal() is None,
{
    AlertBuilder { message: String::from_str(message), severity: Severity::Info, dismissible: None }
}

impl AlertBuilder {
    pub closed spec fn message(&self) -> Seq<char> {
        self.message@
    }

    pub closed spec fn severity(&self) -> Severity {
        self.severity
    }

    pub closed spec fn dismiss_signal(&self) -> Option<Signal> {
        self.dismissible
    }

    /// Whether `b` is this builder with severity `s`.
    pub open spec fn with_severity(&self, b: AlertBuilder, s: Severity) -> bool {
        b.message() == self.message() && b.severity() == s && b.dismiss_signal() == self.dismiss_signal()
    }

    pub fn success(self) -> (b: Self)
        ensures
            self.with_severity(b, Severity::Success),
    {
        AlertBuilder { severity: Severity::Success, ..self }
    }

    pub fn warning(self) -> (b: Self)
        ensures
            self.with_severity(b, Severity::Warning),
    {
        AlertBuilder { severity: Severity::Warning, ..self }
    }

    pub fn error(self) -> (b: Self)
        ensures
            self.with_severity(b, Severity::Error),
    {
        AlertBuilder { severity: Severity::Error, ..self }
    }

    pub fn info(self) -> (b: Self)
        ensures
            self.with_severity(b, Severity::Info),
    {
        AlertBuilder { severity: Severity::Info, ..self }
    }

    /// Lets the user dismiss the alert, which then shows while `visible`
    /// holds `true`.
    pub fn dismissible(self, visible: Signal) -> (b: Self)
        ensures
            b.message() == self.message(),
            b.severity() == self.severity(),
            b.dismiss_signal() == Some(visible),
    {
        AlertBuilder { dismissible: Some(visible), ..self }
    }

    /// The alert to create.
    pub fn build(self) -> (r: AlertSpec)
        ensures
            r.class@ == alert_class(self.severity()),
            r.icon@ == severity_icon(self.severity()),
            r.message@ == self.message(),
            r.dismiss == self.dismiss_signal(),
    {
        let mut class = String::from_str("ox-alert ox-alert-");
        class.append(severity_text(self.severity));
        AlertSpec {
            class,
            icon: severity_icon_text(self.severity),
            message: self.message,
            dismiss: self.dismissible,
        }
    }
}

/// The `display` style of a dismissible alert: shown while visible.
pub fn alert_display(visible: bool) -> (r: &'static str)
    ensures
        r@ == (if visible { ""@ } else { "none"@ }),
{
    if visible {
        ""
    } else {
        "none"
    }
}

/// A modal dialog, as it is to be created.
pub struct ModalSpec<E> {
    /// The signal that opens and closes the dialog.
    pub open: Signal,
    /// The header title, when the title is not empty.
    pub header: Option<String>,
    /// The body element.
    pub body: Option<E>,
}

/// Settings of a modal dialog.
pub struct ModalBuilder<E> {
    open: Signal,
    title: String,
    body_el: Option<E>,
}

/// A dialog shown while `open` holds `true`, untitled and empty.
pub fn modal<E>(open: Signal) -> (b: ModalBuilder<E>)
    ensures
        b.open() == open,
        b.title_text() == Seq::<char>::empty(),
        b.body_el() is None,
{
    ModalBuilder { open, title: String::new(), body_el: None }
}

impl<E> ModalBuilder<E> {
    pub closed spec fn open(&self) -> Signal {
        self.open
    }

    pub closed spec fn title_text(&self) -> Seq<char> {
        self.title@
    }

    pub closed spec fn body_el(&self) -> Option<E> {
        self.body_el
    }

    /// Sets the title.
    pub fn title(self, t: &str) -> (b: Self)
        ensures
            b.open() == self.open(),
            b.title_text() == t@,
            b.body_el() == self.body_el(),
    {
        ModalBuilder { title: String::from_str(t), ..self }
    }

    /// Sets the body.
    pub fn body(self, el: E) -> (b: Self)
        ensures
            b.open() == self.open(),
            b.title_text() == self.title_text(),
            b.body_el() == Some(el),
    {
        ModalBuilder { body_el: Some(el), ..self }
    }

    /// The dialog to create.
    pub fn build(self) -> (r: ModalSpec<E>)
        ensures
            r.open == self.open(),
            self.title_text().len() == 0 <==> r.header is None,
            r.header matches Some(h) ==> h@ == self.title_text(),
            r.body == self.body_el(),
    {
        let header = if self.title.as_str().unicode_len() > 0 {
            Some(self.title)
        } else {
            None
        };
        ModalSpec { open: self.open, header, body: self.body_el }
    }
}

/// The `display` style of a modal's overlay: `flex` while open.
pub fn modal_display(open: bool) -> (r: &'static str)
    ensures
        r@ == (if open { "flex"@ } else { "none"@ }),
{
    if open {
        "flex"
    } else {
        "none"
    }
}

/// How one tab button looks.
pub struct TabState {
    /// The class list.
    pub class: &'static str,
    /// The `aria-selected` value.
    pub selected: bool,
}

/// The tab buttons of `count` tabs while tab `active` is chosen: the active
/// one is marked, the others are plain.
pub fn tab_states(count: usize, active: usize) -> (r: Vec<TabState>)
    ensures
        r@.len() == count,
        forall|i: int|
            0 <= i < count ==> (#[trigger] r@[i]).selected == (i == active) && r@[i].class@ == (if i
                == active { "ox-tab-btn ox-tab-active"@ } else { "ox-tab-btn"@ }),
{
    let mut r: Vec<TabState> = Vec::new();
    let mut i: usize = 0;
    while i < count
        invariant
            i <= count,
            r@.len() == i,
            forall|j: int|
                0 <= j < i ==> (#[trigger] r@[j]).selected == (j == active) && r@[j].class@ == (if j
                    == active { "ox-tab-btn ox-tab-active"@ } else { "ox-tab-btn"@ }),
        decreases count - i,
    {
        if i == active {
            r.push(TabState { class: "ox-tab-btn ox-tab-active", selected: true });
        } else {
            r.push(TabState { class: "ox-tab-btn", selected: false });
        }
        i = i + 1;
    }
    r
}

/// The tab whose view the panel shows: the active one, when there is such
/// a tab.
pub fn shown_tab(count: usize, active: usize) -> (r: Option<usize>)
    ensures
        r == (if active < count { Some(active) } else { None::<usize> }),
{
    if active < count {
        Some(active)
    } else {
        None
    }
}

/// The class list of a badge.
pub open spec fn badge_class(s: Severity) -> Seq<char> {
    "ox-badge ox-badge-"@ + severity_name(s)
}

/// The class list of a badge of severity `s`.
pub fn badge_class_of(s: Severity) -> (r: String)
    ensures
        r@ == badge_class(s),
{
    let mut class = String::from_str("ox-badge ox-badge-");
    class.append(severity_text(s));
    class
}

} // verus!
