//! The render tree handed to the markup engine: elements with a tag, CSS
//! classes, an optional click wiring, and children that are elements or
//! text. The engine itself lives outside the library; it receives this tree
//! and draws it.

use vstd::prelude::*;

verus! {

/// The CSS class names the application emits.
#[derive(Clone, Copy, Debug, PartialEq, Eq, Structural)]
pub enum CssClass {
    Todo,
    Refresh,
    List,
    ListItem,
    Completed,
    NotCompleted,
    Detail,
    Loading,
    Id,
}

/// The element tags the application emits.
#[derive(Clone, Copy, Debug, PartialEq, Eq, Structural)]
pub enum Tag {
    Div,
    Span,
    H1,
    Button,
}

/// The one interactive wiring in the application: the refresh button of the
/// collection page.
#[derive(Clone, Copy, Debug, PartialEq, Eq, Structural)]
pub enum ClickAction {
    Refresh,
}

/// One node of the render tree.
#[derive(Debug, PartialEq)]
pub enum Node {
    Text(String),
    Element(Element),
}

/// An element node: tag, classes, optional click wiring, children in order.
#[derive(Debug, PartialEq)]
pub struct Element {
    pub tag: Tag,
    pub classes: Vec<CssClass>,
    pub onclick: Option<ClickAction>,
    pub children: Vec<Node>,
}

/// The class name as it appears on the wire and in stylesheets.
pub open spec fn css_name(c: CssClass) -> Seq<char> {
    match c {
        CssClass::Todo => "todo"@,
        CssClass::Refresh => "refresh"@,
        CssClass::List => "list"@,
        CssClass::ListItem => "list-item"@,
        CssClass::Completed => "completed"@,
        CssClass::NotCompleted => "not-completed"@,
        CssClass::Detail => "detail"@,
        CssClass::Loading => "loading"@,
        CssClass::Id => "id"@,
    }
}

pub open spec fn tag_name(t: Tag) -> Seq<char> {
    match t {
        Tag::Div => "div"@,
        Tag::Span => "span"@,
        Tag::H1 => "h1"@,
        Tag::Button => "button"@,
    }
}

impl CssClass {
    /// The class name to put on the rendered element.
    pub fn name(&self) -> (r: &'static str)
        ensures
            r@ == css_name(*self),
    {
        match self {
            CssClass::Todo => "todo",
            CssClass::Refresh => "refresh",
            CssClass::List => "list",
            CssClass::ListItem => "list-item",
            CssClass::Completed => "completed",
            CssClass::NotCompleted => "not-completed",
            CssClass::Detail => "detail",
            CssClass::Loading => "loading",
            CssClass::Id => "id",
        }
    }
}

impl Tag {
    /// The tag name of the rendered element.
    pub fn name(&self) -> (r: &'static str)
        ensures
            r@ == tag_name(*self),
    {
        match self {
            Tag::Div => "div",
            Tag::Span => "span",
            Tag::H1 => "h1",
            Tag::Button => "button",
        }
    }
}

/// `n` is the text node holding exactly `s`.
pub open spec fn is_text(n: Node, s: Seq<char>) -> bool {
    n matches Node::Text(t) && t@ == s
}

/// `n` is the loading placeholder: a classless-interaction `div.loading`
/// with the literal text and no rows.
pub open spec fn is_loading_node(n: Node) -> bool {
    &&& n matches Node::Element(e)
    &&& e.tag == Tag::Div
    &&& e.classes@ == seq![CssClass::Loading]
    &&& e.onclick is None
    &&& e.children@.len() == 1
    &&& is_text(e.children@[0], "loading..."@)
}

/// Builds the loading placeholder shown while a page has no data.
pub fn loading_node() -> (r: Node)
    ensures
        is_loading_node(r),
{
    let mut classes: Vec<CssClass> = Vec::new();
    classes.push(CssClass::Loading);
    let mut children: Vec<Node> = Vec::new();
    children.push(Node::Text(String::from_str("loading...")));
    proof {
        assert(classes@ =~= seq![CssClass::Loading]);
    }
    Node::Element(Element { tag: Tag::Div, classes, onclick: None, children })
}

} // verus!
