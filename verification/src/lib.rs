//! Core of a small single-page todo browser application: the data model for
//! one todo record, the fetch/render state machines of the collection page
//! and the detail page, route dispatch, pure construction of the render tree,
//! and structural decoding of the JSON wire format.
//!
//! The HTTP transport and the markup engine are collaborators that live
//! outside this library; they exchange plain values (paths, response text,
//! render trees) with the verified code here.

use vstd::prelude::*;

pub mod codec;
pub mod html;
pub mod num;
pub mod todo;

verus! {

/// The decoded representation of one remote todo item. Immutable once
/// decoded; the UI never mutates or persists it.
#[derive(Clone, Debug, PartialEq)]
pub struct Todo {
    /// Identifies the user who owns the todo (no referential enforcement).
    pub user_id: u64,
    /// Unique identifier, used as the route parameter for detail lookup.
    pub id: u64,
    /// Display label.
    pub title: String,
    /// Toggles a display-only status marker.
    pub completed: bool,
}

/// The mathematical image of a `Todo`: the title as a sequence of characters.
#[verifier::ext_equal]
pub ghost struct TodoV {
    pub user_id: u64,
    pub id: u64,
    pub title: Seq<char>,
    pub completed: bool,
}

impl View for Todo {
    type V = TodoV;

    open spec fn view(&self) -> TodoV {
        TodoV {
            user_id: self.user_id,
            id: self.id,
            title: self.title@,
            completed: self.completed,
        }
    }
}

impl DeepView for Todo {
    type V = TodoV;

    open spec fn deep_view(&self) -> TodoV {
        self.view()
    }
}

/// Why a fetch produced no usable data: the transport failed (network
/// unreachable, non-2xx status) or the payload did not decode. Both are
/// handled identically: the page stays in the not-loaded state.
#[derive(Clone, Copy, Debug, PartialEq, Eq, Structural)]
pub enum FetchError {
    Transport,
    Decode,
}

/// An outbound request the state machines ask the transport to perform:
/// fetch the whole collection, or fetch one item by id.
#[derive(Clone, Copy, Debug, PartialEq, Eq, Structural)]
pub enum Request {
    Collection,
    Item(i32),
}

/// A message consumed by the collection page: the user (or mount) asked for
/// a fetch, or a fetch completed with a decoded response or an error.
pub enum Msg {
    MakeReq,
    Resp(Result<Vec<Todo>, FetchError>),
}

/// The collection page: holds the fetched todos, absent until the first
/// successful response has been applied.
pub struct Home {
    pub todos: Option<Vec<Todo>>,
}

/// The transition function of the collection page: a fetch request clears
/// the data to not-loaded, a successful response installs the decoded
/// collection, a failed response leaves the state unchanged.
pub open spec fn home_next(h: Home, msg: Msg) -> Home {
    match msg {
        Msg::MakeReq => Home { todos: None },
        Msg::Resp(resp) => match resp {
            Ok(data) => Home { todos: Some(data) },
            Err(_) => h,
        },
    }
}

/// The state reached after consuming a sequence of messages in order.
pub open spec fn home_run(h: Home, msgs: Seq<Msg>) -> Home
    decreases msgs.len(),
{
    if msgs.len() == 0 {
        h
    } else {
        home_run(home_next(h, msgs[0]), msgs.drop_first())
    }
}

impl Home {
    /// Mounting the page: it starts with no data and immediately sends
    /// itself the message that triggers the initial fetch.
    pub fn create() -> (r: (Home, Msg))
        ensures
            r.0.todos is None,
            r.1 == Msg::MakeReq,
    {
        (Home { todos: None }, Msg::MakeReq)
    }

    /// One step of the state machine. Always requests a re-render; a fetch
    /// request additionally asks the transport for the collection.
    pub fn update(&mut self, msg: Msg) -> (r: (bool, Option<Request>))
        ensures
            *final(self) == home_next(*old(self), msg),
            r.0 == true,
            msg is MakeReq ==> r.1 == Some(Request::Collection),
            msg is Resp ==> r.1 is None,
    {
        match msg {
            Msg::MakeReq => {
                self.todos = None;
                (true, Some(Request::Collection))
            },
            Msg::Resp(resp) => {
                if let Ok(data) = resp {
                    self.todos = Some(data);
                }
                (true, None)
            },
        }
    }

    /// The collection page takes no input properties, so a property change
    /// never re-renders it.
    pub fn changed(&mut self) -> (r: bool)
        ensures
            r == false,
            *final(self) == *old(self),
    {
        false
    }

    /// The rendered collection page: a `div.todo` holding the refresh bar
    /// and the list component's output for the current data.
    pub fn view(&self) -> (r: html::Node)
        ensures
            is_home_view(r, self.todos.deep_view()),
    {
        let todos2 = clone_todos(&self.todos);
        let list = todo::list::List::create();
        let props = todo::list::Props { todos: todos2 };
        let list_node = list.view(&props);

        let mut b_children: Vec<html::Node> = Vec::new();
        b_children.push(html::Node::Text(String::from_str("refresh")));
        let button = html::Node::Element(
            html::Element {
                tag: html::Tag::Button,
                classes: Vec::new(),
                onclick: Some(html::ClickAction::Refresh),
                children: b_children,
            },
        );
        let mut rb_classes: Vec<html::CssClass> = Vec::new();
        rb_classes.push(html::CssClass::Refresh);
        let mut rb_children: Vec<html::Node> = Vec::new();
        rb_children.push(button);
        proof {
            assert(rb_classes@ =~= seq![html::CssClass::Refresh]);
        }
        let bar = html::Node::Element(
            html::Element {
                tag: html::Tag::Div,
                classes: rb_classes,
                onclick: None,
                children: rb_children,
            },
        );

        let mut inner_children: Vec<html::Node> = Vec::new();
        inner_children.push(bar);
        inner_children.push(list_node);
        let inner = html::Node::Element(
            html::Element {
                tag: html::Tag::Div,
                classes: Vec::new(),
                onclick: None,
                children: inner_children,
            },
        );

        let mut outer_classes: Vec<html::CssClass> = Vec::new();
        outer_classes.push(html::CssClass::Todo);
        let mut outer_children: Vec<html::Node> = Vec::new();
        outer_children.push(inner);
        proof {
            assert(outer_classes@ =~= seq![html::CssClass::Todo]);
        }
        html::Node::Element(
            html::Element {
                tag: html::Tag::Div,
                classes: outer_classes,
                onclick: None,
                children: outer_children,
            },
        )
    }
}

/// The refresh bar: a `div.refresh` holding the button whose click is wired
/// to the refresh operation.
pub open spec fn is_refresh_bar(n: html::Node) -> bool {
    &&& n matches html::Node::Element(e)
    &&& e.tag == html::Tag::Div
    &&& e.classes@ == seq![html::CssClass::Refresh]
    &&& e.onclick is None
    &&& e.children@.len() == 1
    &&& (e.children@[0] matches html::Node::Element(b) && b.tag == html::Tag::Button
        && b.classes@.len() == 0 && b.onclick == Some(html::ClickAction::Refresh)
        && b.children@.len() == 1 && html::is_text(b.children@[0], "refresh"@))
}

/// The full output of the collection page for the given data.
pub open spec fn is_home_view(n: html::Node, todos: Option<Seq<TodoV>>) -> bool {
    &&& n matches html::Node::Element(e)
    &&& e.tag == html::Tag::Div
    &&& e.classes@ == seq![html::CssClass::Todo]
    &&& e.onclick is None
    &&& e.children@.len() == 1
    &&& (e.children@[0] matches html::Node::Element(inner) && inner.tag == html::Tag::Div
        && inner.classes@.len() == 0 && inner.onclick is None && inner.children@.len() == 2
        && is_refresh_bar(inner.children@[0]) && todo::list::is_list_view(
        inner.children@[1],
        todos,
    ))
}

/// A field-for-field copy of the collection, equal under the deep view.
fn clone_todos(todos: &Option<Vec<Todo>>) -> (r: Option<Vec<Todo>>)
    ensures
        r.deep_view() == todos.deep_view(),
{
    match todos {
        None => None,
        Some(v) => {
            let mut out: Vec<Todo> = Vec::new();
            let mut i: usize = 0;
            while i < v.len()
                invariant
                    i <= v.len(),
                    out@.len() == i,
                    forall|j: int|
                        0 <= j < i ==> (#[trigger] out@[j]).deep_view() == v@[j].deep_view(),
                decreases v.len() - i,
            {
                let t = &v[i];
                out.push(
                    Todo {
                        user_id: t.user_id,
                        id: t.id,
                        title: t.title.clone(),
                        completed: t.completed,
                    },
                );
                i = i + 1;
            }
            proof {
                assert(out.deep_view() =~= v.deep_view());
            }
            Some(out)
        },
    }
}

/// The sequence of messages leaves the state unchanged: every one is a
/// failed response.
pub open spec fn all_failures(msgs: Seq<Msg>) -> bool {
    forall|i: int|
        0 <= i < msgs.len() ==> ((#[trigger] msgs[i]) matches Msg::Resp(resp) && resp is Err)
}

/// Running a concatenation of message sequences is running them in turn.
pub proof fn lemma_home_run_app(h: Home, a: Seq<Msg>, b: Seq<Msg>)
    ensures
        home_run(h, a + b) == home_run(home_run(h, a), b),
    decreases a.len(),
{
    if a.len() == 0 {
        assert(a + b =~= b);
    } else {
        lemma_home_run_app(home_next(h, a[0]), a.drop_first(), b);
        assert((a + b).drop_first() =~= a.drop_first() + b);
        assert((a + b)[0] == a[0]);
    }
}

/// Failed responses never move the collection page.
pub proof fn lemma_failures_preserve(h: Home, msgs: Seq<Msg>)
    requires
        all_failures(msgs),
    ensures
        home_run(h, msgs) == h,
    decreases msgs.len(),
{
    if msgs.len() > 0 {
        assert(msgs[0] matches Msg::Resp(resp) && resp is Err);
        assert(home_next(h, msgs[0]) == h);
        assert(all_failures(msgs.drop_first())) by {
            assert(forall|i: int|
                0 <= i < msgs.drop_first().len() ==> #[trigger] msgs.drop_first()[i] == msgs[i
                    + 1]);
        }
        lemma_failures_preserve(h, msgs.drop_first());
    }
}

/// Last-completed-wins: whatever came before, once the success response
/// carrying `data` is applied and only failed responses follow, the page
/// shows exactly `data`. This documents that concurrent fetches settle on
/// whichever success was applied last, not on the order they were issued.
pub proof fn lemma_last_completed_wins(
    h: Home,
    prefix: Seq<Msg>,
    data: Vec<Todo>,
    failures: Seq<Msg>,
)
    requires
        all_failures(failures),
    ensures
        home_run(h, prefix.push(Msg::Resp(Ok(data))) + failures).todos == Some(data),
{
    let ok = Msg::Resp(Ok(data));
    lemma_home_run_app(h, prefix.push(ok), failures);
    lemma_home_run_app(h, prefix, seq![ok]);
    assert(prefix.push(ok) =~= prefix + seq![ok]);
    let h1 = home_run(h, prefix);
    assert(home_run(h1, seq![ok]) == Home { todos: Some(data) }) by {
        assert(seq![ok].drop_first() =~= Seq::<Msg>::empty());
        assert(home_run(home_next(h1, ok), Seq::<Msg>::empty()) == home_next(h1, ok));
    }
    lemma_failures_preserve(Home { todos: Some(data) }, failures);
}

/// A client-side route: the collection page at the root, or the detail page
/// for one id.
#[derive(Clone, Copy, Debug, PartialEq, Eq, Structural)]
pub enum AppRoute {
    Detail { id: i32 },
    Home,
}

/// Where a path is dispatched: to a page, or to an explicit not-found page
/// for a path no route matches.
#[derive(Clone, Copy, Debug, PartialEq, Eq, Structural)]
pub enum Dispatch {
    ToHome,
    ToDetail(i32),
    NotFound,
}

pub open spec fn home_path() -> Seq<char> {
    "/"@
}

pub open spec fn detail_prefix() -> Seq<char> {
    "/todo/"@
}

/// The path that routes to the detail page for `id`: the prefix followed
/// by the id's decimal text, with a leading `-` for a negative id.
pub open spec fn detail_path(id: int) -> Seq<char> {
    detail_prefix() + int_digits(id)
}

/// Parses a path against the two declared routes: `/` is the collection
/// page; `/todo/` followed by the decimal text of an id (optionally signed)
/// is the detail page. Everything else matches no route.
pub fn parse_route(path: &str) -> (r: Option<AppRoute>)
    ensures
        r == Some(AppRoute::Home) <==> path@ == home_path(),
        r matches Some(AppRoute::Detail { id }) ==> path@ == detail_path(id as int),
        forall|id: i32|
            path@ == #[trigger] detail_path(id as int) ==> r == Some(AppRoute::Detail { id }),
{
    proof {
        reveal_strlit("/");
        reveal_strlit("/todo/");
    }
    let n = path.unicode_len();
    if n == 1 {
        let c = path.get_char(0);
        if c == '/' {
            proof {
                assert(path@ =~= home_path());
                assert forall|id: i32|
                    path@ == #[trigger] detail_path(id as int) implies false by {
                    num::lemma_dec_digits_props(dec_of(id as int));
                }
            }
            return Some(AppRoute::Home);
        }
        proof {
            assert(path@ != home_path()) by {
                assert(home_path()[0] == '/');
            }
            assert forall|id: i32|
                path@ == #[trigger] detail_path(id as int) implies false by {
                num::lemma_dec_digits_props(dec_of(id as int));
            }
        }
        return None;
    }
    let p6 = match codec::expect_lit(path, 0, "/todo/") {
        Some(e) => e,
        None => {
            proof {
                assert forall|id: i32|
                    path@ == #[trigger] detail_path(id as int) implies false by {
                    assert(path@.subrange(0, path@.len() as int) =~= path@);
                    codec::lemma_seg_split(path@, 0, detail_prefix(), int_digits(id as int));
                }
            }
            return None;
        },
    };
    let neg = if p6 < n {
        path.get_char(p6) == '-'
    } else {
        false
    };
    if neg {
        proof {
            assert(path@.subrange(p6 as int, p6 + 1) =~= seq!['-']);
        }
        match num::scan_number(path, p6 + 1) {
            Some((v, end)) => {
                if end == n && v >= 1 && v <= 2147483648 {
                    let id = (-(v as i64)) as i32;
                    proof {
                        assert(id as int == -(v as int));
                        assert(path@ =~= path@.subrange(0, p6 as int) + path@.subrange(
                            p6 as int,
                            p6 + 1,
                        ) + path@.subrange(p6 + 1, n as int));
                        assert(int_digits(id as int) == seq!['-'] + num::dec_digits(v as nat));
                        assert(path@ == detail_path(id as int));
                        assert(path@ != home_path());
                        assert forall|other: i32|
                            path@ == #[trigger] detail_path(other as int) implies Some(
                            AppRoute::Detail { id },
                        ) == Some(AppRoute::Detail { id: other }) by {
                            lemma_detail_path_pins(path@, other as int, v, end as int);
                        }
                    }
                    return Some(AppRoute::Detail { id });
                }
                proof {
                    assert forall|id: i32|
                        path@ == #[trigger] detail_path(id as int) implies false by {
                        lemma_neg_branch_shape(path@, id as int, n as int);
                    }
                }
                return None;
            },
            None => {
                proof {
                    assert forall|id: i32|
                        path@ == #[trigger] detail_path(id as int) implies false by {
                        lemma_neg_branch_shape(path@, id as int, n as int);
                    }
                }
                return None;
            },
        }
    }
    match num::scan_number(path, p6) {
        Some((v, end)) => {
            if end == n && v <= 2147483647 {
                let id = v as i32;
                proof {
                    assert(path@ =~= path@.subrange(0, p6 as int) + path@.subrange(
                        p6 as int,
                        n as int,
                    ));
                    assert(int_digits(id as int) == num::dec_digits(v as nat));
                    assert(path@ == detail_path(id as int));
                    assert(path@ != home_path());
                    assert forall|other: i32|
                        path@ == #[trigger] detail_path(other as int) implies Some(
                        AppRoute::Detail { id },
                    ) == Some(AppRoute::Detail { id: other }) by {
                        lemma_pos_branch_shape(path@, other as int, n as int);
                        assert(v == other as u64);
                    }
                }
                return Some(AppRoute::Detail { id });
            }
            proof {
                assert forall|id: i32|
                    path@ == #[trigger] detail_path(id as int) implies false by {
                    lemma_pos_branch_shape(path@, id as int, n as int);
                    assert(v == id as u64 && end == n);
                }
            }
            None
        },
        None => {
            proof {
                assert forall|id: i32|
                    path@ == #[trigger] detail_path(id as int) implies false by {
                    lemma_pos_branch_shape(path@, id as int, n as int);
                }
            }
            None
        },
    }
}

/// The magnitude whose digits appear in `int_digits(i)`.
pub open spec fn dec_of(i: int) -> nat {
    if i < 0 {
        (-i) as nat
    } else {
        i as nat
    }
}

/// A detail path splits into the prefix, the optional sign, and the
/// canonical digits of the id's magnitude, and nothing follows them.
pub proof fn lemma_detail_route_layout(s: Seq<char>, id: int)
    requires
        s == detail_path(id),
    ensures
        s.subrange(0, 6) == detail_prefix(),
        detail_prefix().len() == 6,
        id >= 0 ==> s.subrange(6, s.len() as int) == num::dec_digits(dec_of(id)) && s.len() == 6
            + num::dec_digits(dec_of(id)).len(),
        id < 0 ==> s[6] == '-' && s.subrange(7, s.len() as int) == num::dec_digits(dec_of(id))
            && s.len() == 7 + num::dec_digits(dec_of(id)).len(),
{
    reveal_strlit("/todo/");
    assert(s.subrange(0, s.len() as int) =~= s);
    codec::lemma_seg_split(s, 0, detail_prefix(), int_digits(id));
    if id < 0 {
        let d = num::dec_digits(dec_of(id));
        assert(int_digits(id) == seq!['-'] + d);
        codec::lemma_seg_split(s, 6, seq!['-'], d);
        assert(s[6] == s.subrange(6, 7)[0]);
        assert(s.subrange(7, s.len() as int) =~= s.subrange(7, 7 + d.len() as int));
    } else {
        assert(s.subrange(6, s.len() as int) =~= s.subrange(6, 6 + int_digits(id).len() as int));
    }
}

/// In the branch where a sign was read, only negative ids fit the path.
proof fn lemma_neg_branch_shape(s: Seq<char>, id: int, n: int)
    requires
        -2147483648 <= id <= 2147483647,
        s == detail_path(id),
        n == s.len(),
        n > 6,
        s[6] == '-',
    ensures
        id < 0,
        s.subrange(7, n) == num::dec_digits(dec_of(id)),
        7 + num::dec_digits(dec_of(id)).len() == n,
        1 <= dec_of(id) <= 2147483648,
{
    lemma_detail_route_layout(s, id);
    num::lemma_dec_digits_props(dec_of(id));
    if id >= 0 {
        assert(s[6] == num::dec_digits(dec_of(id))[0]);
        assert(num::is_digit(s[6]));
        assert(false);
    }
}

/// In the branch where no sign was read, only non-negative ids fit the
/// path.
proof fn lemma_pos_branch_shape(s: Seq<char>, id: int, n: int)
    requires
        -2147483648 <= id <= 2147483647,
        s == detail_path(id),
        n == s.len(),
        n == 6 || s[6] != '-',
    ensures
        id >= 0,
        s.subrange(6, n) == num::dec_digits(dec_of(id)),
        6 + num::dec_digits(dec_of(id)).len() == n,
        dec_of(id) <= 2147483647,
{
    lemma_detail_route_layout(s, id);
    num::lemma_dec_digits_props(dec_of(id));
    if id < 0 {
        assert(false);
    }
}

/// A path that is some detail path determines the id's magnitude read by
/// the scanner after the sign.
proof fn lemma_detail_path_pins(s: Seq<char>, id: int, v: u64, end: int)
    requires
        -2147483648 <= id <= 2147483647,
        s == detail_path(id),
        s.len() > 6,
        s[6] == '-',
        end == s.len(),
        s.subrange(7, end) == num::dec_digits(v as nat),
        v >= 1,
    ensures
        id == -(v as int),
{
    lemma_neg_branch_shape(s, id, s.len() as int);
    num::lemma_dec_digits_props(dec_of(id));
    num::lemma_dec_digits_props(v as nat);
    assert(num::seq_val(num::dec_digits(dec_of(id))) == num::seq_val(num::dec_digits(v as nat)));
}

/// Dispatches a parsed route to its page.
pub fn switch(route: &AppRoute) -> (r: Dispatch)
    ensures
        *route == AppRoute::Home ==> r == Dispatch::ToHome,
        route matches AppRoute::Detail { id } ==> r == Dispatch::ToDetail(*id),
{
    match route {
        AppRoute::Home => Dispatch::ToHome,
        AppRoute::Detail { id } => Dispatch::ToDetail(*id),
    }
}

/// Parses and dispatches a path in one step; a path no route matches goes
/// to the not-found page.
pub fn dispatch_path(path: &str) -> (r: Dispatch)
    ensures
        path@ == home_path() ==> r == Dispatch::ToHome,
        forall|id: i32|
            path@ == #[trigger] detail_path(id as int) ==> r == Dispatch::ToDetail(id),
        r == Dispatch::NotFound <==> (path@ != home_path() && (forall|id: i32|
            path@ != #[trigger] detail_path(id as int))),
{
    match parse_route(path) {
        Some(route) => switch(&route),
        None => Dispatch::NotFound,
    }
}

pub open spec fn collection_path() -> Seq<char> {
    "/todos"@
}

/// The decimal text of a signed id.
pub open spec fn int_digits(i: int) -> Seq<char> {
    if i < 0 {
        seq!['-'] + num::dec_digits((-i) as nat)
    } else {
        num::dec_digits(i as nat)
    }
}

/// The path of the single-item endpoint for `i`.
pub open spec fn item_path(i: int) -> Seq<char> {
    "/todos/"@ + int_digits(i)
}

impl Request {
    /// The endpoint path of this request, to be appended to the configured
    /// base origin by the transport.
    pub fn path_suffix(&self) -> (r: String)
        ensures
            *self == Request::Collection ==> r@ == collection_path(),
            self matches Request::Item(id) ==> r@ == item_path(*id as int),
    {
        match self {
            Request::Collection => String::from_str("/todos"),
            Request::Item(id) => {
                let mut out = String::from_str("/todos/");
                if *id < 0 {
                    out.append("-");
                    let m = (-((*id) as i64)) as u64;
                    proof {
                        reveal_strlit("-");
                        assert("-"@ =~= seq!['-']);
                        assert(m as nat == (-(*id as int)) as nat);
                    }
                    let ds = num::u64_to_string(m);
                    out.append(ds.as_str());
                    proof {
                        assert(out@ =~= item_path(*id as int));
                    }
                } else {
                    let ds = num::u64_to_string(*id as u64);
                    out.append(ds.as_str());
                    proof {
                        assert(out@ =~= item_path(*id as int));
                    }
                }
                out
            },
        }
    }
}

} // verus!
