//! Pure rendering of the todo collection: one row per record in input
//! order, or the loading placeholder while the collection is absent.

use vstd::prelude::*;

use crate::Todo;
use crate::TodoV;
use crate::html::CssClass;
use crate::html::Element;
use crate::html::Node;
use crate::html::Tag;
use crate::html::is_loading_node;
use crate::html::is_text;
use crate::html::loading_node;

verus! {

/// Input to the list component: the collection, absent while not loaded.
pub struct Props {
    pub todos: Option<Vec<Todo>>,
}

/// The list component holds no state of its own.
pub struct List {}

/// The list component has no meaningful messages; the one inert variant
/// keeps the type inhabited.
pub enum Msg {
    Noop,
}

/// `n` is the row for record `t`: a `div.list-item` showing the title, with
/// the `completed` class present if and only if the record is completed.
pub open spec fn is_todo_row(n: Node, t: TodoV) -> bool {
    &&& n matches Node::Element(e)
    &&& e.tag == Tag::Div
    &&& e.onclick is None
    &&& (t.completed ==> e.classes@ == seq![CssClass::ListItem, CssClass::Completed])
    &&& (!t.completed ==> e.classes@ == seq![CssClass::ListItem])
    &&& (e.classes@.contains(CssClass::Completed) <==> t.completed)
    &&& e.children@.len() == 1
    &&& is_text(e.children@[0], t.title)
}

/// `n` is the rendered collection: a `div.list` with exactly one row per
/// record, in input order.
pub open spec fn is_list_node(n: Node, ts: Seq<TodoV>) -> bool {
    &&& n matches Node::Element(e)
    &&& e.tag == Tag::Div
    &&& e.classes@ == seq![CssClass::List]
    &&& e.onclick is None
    &&& e.children@.len() == ts.len()
    &&& (forall|i: int| 0 <= i < ts.len() ==> is_todo_row(#[trigger] e.children@[i], ts[i]))
}

/// `n` is the full output of the list component: a plain `div` around the
/// rendered collection, or around the loading placeholder when the
/// collection is absent.
pub open spec fn is_list_view(n: Node, todos: Option<Seq<TodoV>>) -> bool {
    &&& n matches Node::Element(e)
    &&& e.tag == Tag::Div
    &&& e.classes@.len() == 0
    &&& e.onclick is None
    &&& e.children@.len() == 1
    &&& (todos matches Some(ts) ==> is_list_node(e.children@[0], ts))
    &&& (todos is None ==> is_loading_node(e.children@[0]))
}

impl List {
    pub fn create() -> (r: List) {
        List {}
    }

    /// The component has no messages, so an update only requests a
    /// re-render.
    pub fn update(&mut self, _msg: Msg) -> (r: bool)
        ensures
            r == true,
            *final(self) == *old(self),
    {
        true
    }

    /// New properties always re-render the list.
    pub fn changed(&mut self) -> (r: bool)
        ensures
            r == true,
            *final(self) == *old(self),
    {
        true
    }

    pub fn view(&self, props: &Props) -> (r: Node)
        ensures
            is_list_view(r, props.todos.deep_view()),
    {
        let inner = self.render_list(&props.todos);
        let classes: Vec<CssClass> = Vec::new();
        let mut children: Vec<Node> = Vec::new();
        children.push(inner);
        Node::Element(Element { tag: Tag::Div, classes, onclick: None, children })
    }

    /// The pure collection renderer: loading placeholder when absent, one
    /// row per record otherwise (also for the empty collection).
    pub fn render_list(&self, todos: &Option<Vec<Todo>>) -> (r: Node)
        ensures
            todos matches Some(ts) ==> is_list_node(r, ts.deep_view()),
            todos is None ==> is_loading_node(r),
    {
        match todos {
            Some(ts) => {
                let mut rows: Vec<Node> = Vec::new();
                let mut i: usize = 0;
                while i < ts.len()
                    invariant
                        i <= ts.len(),
                        rows@.len() == i,
                        forall|j: int|
                            0 <= j < i ==> is_todo_row(#[trigger] rows@[j], ts.deep_view()[j]),
                    decreases ts.len() - i,
                {
                    let row = self.view_todo(&ts[i]);
                    rows.push(row);
                    i = i + 1;
                }
                let mut classes: Vec<CssClass> = Vec::new();
                classes.push(CssClass::List);
                proof {
                    assert(classes@ =~= seq![CssClass::List]);
                }
                Node::Element(Element { tag: Tag::Div, classes, onclick: None, children: rows })
            },
            None => loading_node(),
        }
    }

    /// The row for one record.
    pub fn view_todo(&self, todo: &Todo) -> (r: Node)
        ensures
            is_todo_row(r, todo.deep_view()),
    {
        let mut classes: Vec<CssClass> = Vec::new();
        classes.push(CssClass::ListItem);
        if todo.completed {
            classes.push(CssClass::Completed);
        }
        let mut children: Vec<Node> = Vec::new();
        children.push(Node::Text(todo.title.clone()));
        proof {
            if todo.completed {
                assert(classes@ =~= seq![CssClass::ListItem, CssClass::Completed]);
            } else {
                assert(classes@ =~= seq![CssClass::ListItem]);
                assert(!classes@.contains(CssClass::Completed)) by {
                    assert(forall|i: int|
                        0 <= i < classes@.len() ==> #[trigger] classes@[i] != CssClass::Completed);
                }
            }
        }
        Node::Element(Element { tag: Tag::Div, classes, onclick: None, children })
    }
}

} // verus!
