//! The detail page: the fetch state machine for a single todo identified by
//! an id route parameter, and the pure rendering of the fetched record.

use vstd::prelude::*;

use crate::FetchError;
use crate::Request;
use crate::Todo;
use crate::TodoV;
use crate::html::CssClass;
use crate::html::Element;
use crate::html::Node;
use crate::html::Tag;
use crate::html::is_loading_node;
use crate::html::is_text;
use crate::html::loading_node;
use crate::num::dec_digits;
use crate::num::u64_to_string;

verus! {

/// Input to the detail component: the id of the todo to show.
#[derive(Clone, Copy, Debug, PartialEq, Eq, Structural)]
pub struct Props {
    pub todo_id: i32,
}

/// The detail page: holds the fetched record, absent until the first
/// successful response for the current id has been applied.
pub struct Detail {
    pub todo: Option<Todo>,
}

/// A message consumed by the detail page: a fetch was requested for an id,
/// or a fetch completed with a decoded record or an error.
pub enum Msg {
    MakeReq(i32),
    Resp(Result<Todo, FetchError>),
}

/// The transition function of the detail page: a fetch request clears the
/// record to not-loaded, a successful response installs the decoded record,
/// a failed response leaves the state unchanged.
pub open spec fn detail_next(d: Detail, msg: Msg) -> Detail {
    match msg {
        Msg::MakeReq(_) => Detail { todo: None },
        Msg::Resp(resp) => match resp {
            Ok(t) => Detail { todo: Some(t) },
            Err(_) => d,
        },
    }
}

/// The state reached after consuming a sequence of messages in order.
pub open spec fn detail_run(d: Detail, msgs: Seq<Msg>) -> Detail
    decreases msgs.len(),
{
    if msgs.len() == 0 {
        d
    } else {
        detail_run(detail_next(d, msgs[0]), msgs.drop_first())
    }
}

/// The sequence of messages leaves the detail page unchanged: every one is
/// a failed response.
pub open spec fn all_detail_failures(msgs: Seq<Msg>) -> bool {
    forall|i: int|
        0 <= i < msgs.len() ==> ((#[trigger] msgs[i]) matches Msg::Resp(resp) && resp is Err)
}

/// Failed responses never move the detail page.
pub proof fn lemma_detail_failures_preserve(d: Detail, msgs: Seq<Msg>)
    requires
        all_detail_failures(msgs),
    ensures
        detail_run(d, msgs) == d,
    decreases msgs.len(),
{
    if msgs.len() > 0 {
        assert(msgs[0] matches Msg::Resp(resp) && resp is Err);
        assert(detail_next(d, msgs[0]) == d);
        assert(all_detail_failures(msgs.drop_first())) by {
            assert(forall|i: int|
                0 <= i < msgs.drop_first().len() ==> #[trigger] msgs.drop_first()[i] == msgs[i
                    + 1]);
        }
        lemma_detail_failures_preserve(d, msgs.drop_first());
    }
}

/// A detail fetch whose responses all fail leaves the page with no record,
/// so its view keeps the loading placeholder (`Detail::view` renders the
/// placeholder exactly when the record is absent) rather than showing stale
/// or invented data — and, like every verified function here, without
/// panicking.
pub proof fn lemma_failed_fetch_stays_loading(d: Detail, id: i32, failures: Seq<Msg>)
    requires
        all_detail_failures(failures),
    ensures
        detail_run(detail_next(d, Msg::MakeReq(id)), failures).todo is None,
{
    lemma_detail_failures_preserve(detail_next(d, Msg::MakeReq(id)), failures);
}

/// `n` is the heading of the detail page: the title, then the id in a
/// `span.id`, set in parentheses.
pub open spec fn is_detail_heading(n: Node, t: TodoV) -> bool {
    &&& n matches Node::Element(e)
    &&& e.tag == Tag::H1
    &&& e.classes@.len() == 0
    &&& e.onclick is None
    &&& e.children@.len() == 4
    &&& is_text(e.children@[0], t.title)
    &&& is_text(e.children@[1], " ("@)
    &&& (e.children@[2] matches Node::Element(span) && span.tag == Tag::Span && span.classes@
        == seq![CssClass::Id] && span.onclick is None && span.children@.len() == 1 && is_text(
        span.children@[0],
        dec_digits(t.id as nat),
    ))
    &&& is_text(e.children@[3], ")"@)
}

/// `n` attributes the record to its owning user.
pub open spec fn is_detail_attribution(n: Node, t: TodoV) -> bool {
    &&& n matches Node::Element(e)
    &&& e.tag == Tag::Div
    &&& e.classes@.len() == 0
    &&& e.onclick is None
    &&& e.children@.len() == 2
    &&& is_text(e.children@[0], "by user "@)
    &&& is_text(e.children@[1], dec_digits(t.user_id as nat))
}

/// `n` is the status marker: the `completed` class and the text "done" when
/// the record is completed, else the `not-completed` class and "not done".
pub open spec fn is_detail_status(n: Node, t: TodoV) -> bool {
    &&& n matches Node::Element(e)
    &&& e.tag == Tag::Div
    &&& (t.completed ==> e.classes@ == seq![CssClass::Completed])
    &&& (!t.completed ==> e.classes@ == seq![CssClass::NotCompleted])
    &&& e.onclick is None
    &&& e.children@.len() == 1
    &&& (t.completed ==> is_text(e.children@[0], "done"@))
    &&& (!t.completed ==> is_text(e.children@[0], "not done"@))
}

/// `n` is the rendered record: a `div.detail` with heading, attribution and
/// status marker.
pub open spec fn is_detail_node(n: Node, t: TodoV) -> bool {
    &&& n matches Node::Element(e)
    &&& e.tag == Tag::Div
    &&& e.classes@ == seq![CssClass::Detail]
    &&& e.onclick is None
    &&& e.children@.len() == 3
    &&& is_detail_heading(e.children@[0], t)
    &&& is_detail_attribution(e.children@[1], t)
    &&& is_detail_status(e.children@[2], t)
}

/// `n` is the full output of the detail component: a `div.todo` around the
/// rendered record, or around the loading placeholder when no record is
/// loaded.
pub open spec fn is_detail_view(n: Node, todo: Option<TodoV>) -> bool {
    &&& n matches Node::Element(e)
    &&& e.tag == Tag::Div
    &&& e.classes@ == seq![CssClass::Todo]
    &&& e.onclick is None
    &&& e.children@.len() == 1
    &&& (todo matches Some(t) ==> is_detail_node(e.children@[0], t))
    &&& (todo is None ==> is_loading_node(e.children@[0]))
}

impl Detail {
    /// Mounting the page: it starts with no record and immediately sends
    /// itself the message that triggers the fetch for the given id.
    pub fn create(props: &Props) -> (r: (Detail, Msg))
        ensures
            r.0.todo is None,
            r.1 == Msg::MakeReq(props.todo_id),
    {
        (Detail { todo: None }, Msg::MakeReq(props.todo_id))
    }

    /// One step of the state machine. Always requests a re-render; a fetch
    /// request additionally asks the transport for the single item.
    pub fn update(&mut self, msg: Msg) -> (r: (bool, Option<Request>))
        ensures
            *final(self) == detail_next(*old(self), msg),
            r.0 == true,
            msg matches Msg::MakeReq(id) ==> r.1 == Some(Request::Item(id)),
            msg is Resp ==> r.1 is None,
    {
        match msg {
            Msg::MakeReq(id) => {
                self.todo = None;
                (true, Some(Request::Item(id)))
            },
            Msg::Resp(resp) => {
                if let Ok(t) = resp {
                    self.todo = Some(t);
                }
                (true, None)
            },
        }
    }

    /// The same component instance persists across route-parameter changes,
    /// so a property change re-renders and re-issues the fetch for the new
    /// id.
    pub fn changed(&mut self, props: &Props) -> (r: (bool, Msg))
        ensures
            r.0 == true,
            r.1 == Msg::MakeReq(props.todo_id),
            *final(self) == *old(self),
    {
        (true, Msg::MakeReq(props.todo_id))
    }

    pub fn view(&self) -> (r: Node)
        ensures
            is_detail_view(r, self.todo.deep_view()),
    {
        let inner = self.render_detail(&self.todo);
        let mut classes: Vec<CssClass> = Vec::new();
        classes.push(CssClass::Todo);
        let mut children: Vec<Node> = Vec::new();
        children.push(inner);
        proof {
            assert(classes@ =~= seq![CssClass::Todo]);
        }
        Node::Element(Element { tag: Tag::Div, classes, onclick: None, children })
    }

    /// The pure record renderer: loading placeholder when absent, else the
    /// heading, attribution and status marker.
    pub fn render_detail(&self, todo: &Option<Todo>) -> (r: Node)
        ensures
            todo matches Some(t) ==> is_detail_node(r, t.deep_view()),
            todo is None ==> is_loading_node(r),
    {
        match todo {
            Some(t) => {
                let mut id_classes: Vec<CssClass> = Vec::new();
                id_classes.push(CssClass::Id);
                let mut id_children: Vec<Node> = Vec::new();
                id_children.push(Node::Text(u64_to_string(t.id)));
                proof {
                    assert(id_classes@ =~= seq![CssClass::Id]);
                }
                let id_span = Node::Element(
                    Element {
                        tag: Tag::Span,
                        classes: id_classes,
                        onclick: None,
                        children: id_children,
                    },
                );

                let mut h_children: Vec<Node> = Vec::new();
                h_children.push(Node::Text(t.title.clone()));
                h_children.push(Node::Text(String::from_str(" (")));
                h_children.push(id_span);
                h_children.push(Node::Text(String::from_str(")")));
                let heading = Node::Element(
                    Element {
                        tag: Tag::H1,
                        classes: Vec::new(),
                        onclick: None,
                        children: h_children,
                    },
                );

                let mut a_children: Vec<Node> = Vec::new();
                a_children.push(Node::Text(String::from_str("by user ")));
                a_children.push(Node::Text(u64_to_string(t.user_id)));
                let attribution = Node::Element(
                    Element {
                        tag: Tag::Div,
                        classes: Vec::new(),
                        onclick: None,
                        children: a_children,
                    },
                );

                let mut s_classes: Vec<CssClass> = Vec::new();
                let mut s_children: Vec<Node> = Vec::new();
                if t.completed {
                    s_classes.push(CssClass::Completed);
                    s_children.push(Node::Text(String::from_str("done")));
                    proof {
                        assert(s_classes@ =~= seq![CssClass::Completed]);
                    }
                } else {
                    s_classes.push(CssClass::NotCompleted);
                    s_children.push(Node::Text(String::from_str("not done")));
                    proof {
                        assert(s_classes@ =~= seq![CssClass::NotCompleted]);
                    }
                }
                let status = Node::Element(
                    Element {
                        tag: Tag::Div,
                        classes: s_classes,
                        onclick: None,
                        children: s_children,
                    },
                );

                let mut d_classes: Vec<CssClass> = Vec::new();
                d_classes.push(CssClass::Detail);
                let mut d_children: Vec<Node> = Vec::new();
                d_children.push(heading);
                d_children.push(attribution);
                d_children.push(status);
                proof {
                    assert(d_classes@ =~= seq![CssClass::Detail]);
                }
                Node::Element(
                    Element {
                        tag: Tag::Div,
                        classes: d_classes,
                        onclick: None,
                        children: d_children,
                    },
                )
            },
            None => loading_node(),
        }
    }
}

} // verus!
