use todo_spa::codec::decode_todos;
use todo_spa::html::{ClickAction, CssClass, Element, Node, Tag};
use todo_spa::num::u64_to_string;
use todo_spa::todo::detail::{Detail, Msg as DetailMsg, Props as DetailProps};
use todo_spa::todo::list::{List, Props as ListProps};
use todo_spa::{dispatch_path, parse_route, switch};
use todo_spa::{AppRoute, Dispatch, FetchError, Home, Msg, Request, Todo};

fn mk_todo(user_id: u64, id: u64, title: &str, completed: bool) -> Todo {
    Todo {
        user_id,
        id,
        title: String::from(title),
        completed,
    }
}

fn as_element(n: &Node) -> &Element {
    match n {
        Node::Element(e) => e,
        Node::Text(t) => panic!("expected an element, got text {:?}", t),
    }
}

fn as_text(n: &Node) -> &str {
    match n {
        Node::Text(t) => t.as_str(),
        Node::Element(_) => panic!("expected text, got an element"),
    }
}

#[test]
fn list_rows_match_input() {
    let todos = vec![
        mk_todo(1, 1, "delectus aut autem", false),
        mk_todo(1, 2, "quis ut nam facilis", true),
        mk_todo(2, 3, "fugiat veniam minus", false),
    ];
    let list = List::create();
    let node = list.render_list(&Some(todos));
    let e = as_element(&node);
    assert_eq!(e.tag, Tag::Div);
    assert_eq!(e.classes, vec![CssClass::List]);
    assert_eq!(e.children.len(), 3);
    let titles = ["delectus aut autem", "quis ut nam facilis", "fugiat veniam minus"];
    let done = [false, true, false];
    for (i, row) in e.children.iter().enumerate() {
        let r = as_element(row);
        assert_eq!(r.tag, Tag::Div);
        assert_eq!(r.classes.contains(&CssClass::Completed), done[i]);
        assert!(r.classes.contains(&CssClass::ListItem));
        assert_eq!(r.children.len(), 1);
        assert_eq!(as_text(&r.children[0]), titles[i]);
    }
}

#[test]
fn list_absent_shows_loading() {
    let list = List::create();
    let node = list.render_list(&None);
    let e = as_element(&node);
    assert_eq!(e.classes, vec![CssClass::Loading]);
    assert_eq!(e.children.len(), 1);
    assert_eq!(as_text(&e.children[0]), "loading...");
}

#[test]
fn list_empty_collection_renders_no_rows() {
    let list = List::create();
    let node = list.render_list(&Some(Vec::new()));
    let e = as_element(&node);
    assert_eq!(e.classes, vec![CssClass::List]);
    assert_eq!(e.children.len(), 0);
}

#[test]
fn list_view_wraps_rendered_collection() {
    let list = List::create();
    let props = ListProps {
        todos: Some(vec![mk_todo(1, 4, "et porro tempora", true)]),
    };
    let node = list.view(&props);
    let wrapper = as_element(&node);
    assert_eq!(wrapper.tag, Tag::Div);
    assert!(wrapper.classes.is_empty());
    let inner = as_element(&wrapper.children[0]);
    assert_eq!(inner.classes, vec![CssClass::List]);
    assert_eq!(inner.children.len(), 1);
    let row = as_element(&inner.children[0]);
    assert_eq!(row.classes, vec![CssClass::ListItem, CssClass::Completed]);
    assert_eq!(as_text(&row.children[0]), "et porro tempora");
}

#[test]
fn decode_two_records_round_trip() {
    let wire = "[{\"userId\":1,\"id\":1,\"title\":\"delectus aut autem\",\"completed\":false},{\"userId\":2,\"id\":5,\"title\":\"quis ut nam\",\"completed\":true}]";
    let decoded = decode_todos(wire).expect("well-formed response must decode");
    assert_eq!(decoded.len(), 2);
    assert_eq!(decoded[0], mk_todo(1, 1, "delectus aut autem", false));
    assert_eq!(decoded[1], mk_todo(2, 5, "quis ut nam", true));
}

#[test]
fn decode_empty_array() {
    let decoded = decode_todos("[]").expect("empty response must decode");
    assert!(decoded.is_empty());
}

#[test]
fn decode_empty_title() {
    let decoded = decode_todos("[{\"userId\":9,\"id\":0,\"title\":\"\",\"completed\":true}]")
        .expect("empty title must decode");
    assert_eq!(decoded[0], mk_todo(9, 0, "", true));
}

#[test]
fn decode_rejects_malformed() {
    assert_eq!(decode_todos(""), None);
    assert_eq!(decode_todos("{}"), None);
    assert_eq!(decode_todos("["), None);
    assert_eq!(decode_todos("[]x"), None);
    assert_eq!(decode_todos("[{\"userId\":1}]"), None);
    assert_eq!(
        decode_todos("[{\"userId\":01,\"id\":1,\"title\":\"a\",\"completed\":false}]"),
        None
    );
    assert_eq!(
        decode_todos("[{\"userId\":1,\"id\":1,\"title\":\"a\\b\",\"completed\":false}]"),
        None
    );
    assert_eq!(
        decode_todos("[{\"userId\":1,\"id\":1,\"title\":\"a\",\"completed\":maybe}]"),
        None
    );
    assert_eq!(
        decode_todos("[{\"userId\":1,\"id\":1,\"title\":\"a\",\"completed\":false}"),
        None
    );
    assert_eq!(
        decode_todos("[{\"userId\":18446744073709551616,\"id\":1,\"title\":\"a\",\"completed\":false}]"),
        None
    );
}

#[test]
fn decode_pretty_printed_response() {
    let wire = "[\n  {\n    \"userId\": 1,\n    \"id\": 1,\n    \"title\": \"delectus aut autem\",\n    \"completed\": false\n  },\n  {\n    \"userId\": 2,\n    \"id\": 5,\n    \"title\": \"quis ut nam\",\n    \"completed\": true\n  }\n]";
    let decoded =
        todo_spa::codec::decode_todos_json(wire).expect("pretty-printed response must decode");
    assert_eq!(decoded.len(), 2);
    assert_eq!(decoded[0], mk_todo(1, 1, "delectus aut autem", false));
    assert_eq!(decoded[1], mk_todo(2, 5, "quis ut nam", true));
    // The canonical layer underneath accepts only the un-padded text.
    assert_eq!(decode_todos(wire), None);
}

#[test]
fn decode_json_whitespace_edges() {
    assert_eq!(
        todo_spa::codec::decode_todos_json(" [ ] ").expect("padded empty array must decode"),
        Vec::<Todo>::new()
    );
    let padded_single = " {\"userId\": 1,\t\"id\": 3, \"title\": \"fix bug\", \"completed\": false}\n";
    assert_eq!(
        todo_spa::codec::decode_todo_json(padded_single),
        Some(mk_todo(1, 3, "fix bug", false))
    );
    // Whitespace inside a title is content, not padding, and is kept.
    let spaced_title = "[{\"userId\":1,\"id\":2,\"title\":\"a  b\",\"completed\":true}]";
    let decoded = todo_spa::codec::decode_todos_json(spaced_title).expect("must decode");
    assert_eq!(decoded[0].title, "a  b");
    // An escaped title has no rendering in this format.
    assert_eq!(
        todo_spa::codec::decode_todos_json("[{\"userId\":1,\"id\":1,\"title\":\"a\\b\",\"completed\":false}]"),
        None
    );
}

#[test]
fn decode_reordered_members() {
    // A well-formed object with its required members in another order than
    // the endpoint serves them decodes all the same.
    assert_eq!(
        todo_spa::codec::decode_todo_json("{\"id\":3,\"userId\":1,\"title\":\"x\",\"completed\":false}"),
        Some(mk_todo(1, 3, "x", false))
    );
    let wire = "[ {\"completed\": true, \"title\": \"first\", \"id\": 1, \"userId\": 9},\n {\"userId\": 2, \"id\": 5, \"title\": \"second\", \"completed\": false} ]";
    let decoded = todo_spa::codec::decode_todos_json(wire).expect("reordered members must decode");
    assert_eq!(decoded.len(), 2);
    assert_eq!(decoded[0], mk_todo(9, 1, "first", true));
    assert_eq!(decoded[1], mk_todo(2, 5, "second", false));
    // Each member exactly once: duplicates, unknown names, and missing
    // members are refused.
    assert_eq!(
        todo_spa::codec::decode_todo_json("{\"id\":3,\"id\":3,\"title\":\"x\",\"completed\":false}"),
        None
    );
    assert_eq!(
        todo_spa::codec::decode_todo_json("{\"userId\":1,\"id\":3,\"title\":\"x\",\"extra\":0,\"completed\":false}"),
        None
    );
    assert_eq!(
        todo_spa::codec::decode_todo_json("{\"userId\":1,\"id\":3,\"title\":\"x\"}"),
        None
    );
}

#[test]
fn decode_single_record() {
    let wire = "{\"userId\":1,\"id\":3,\"title\":\"fix bug\",\"completed\":false}";
    let decoded = todo_spa::codec::decode_todo(wire).expect("well-formed record must decode");
    assert_eq!(decoded, mk_todo(1, 3, "fix bug", false));
    assert_eq!(todo_spa::codec::decode_todo(""), None);
    assert_eq!(todo_spa::codec::decode_todo("[]"), None);
    let trailing = "{\"userId\":1,\"id\":3,\"title\":\"fix bug\",\"completed\":false} ";
    assert_eq!(todo_spa::codec::decode_todo(trailing), None);
}

#[test]
fn home_mount_schedules_fetch() {
    let (home, msg) = Home::create();
    assert!(home.todos.is_none());
    assert!(matches!(msg, Msg::MakeReq));
    let mut home = home;
    let (redraw, action) = home.update(msg);
    assert!(redraw);
    assert_eq!(action, Some(Request::Collection));
    assert!(home.todos.is_none());
}

#[test]
fn refresh_last_completed_wins() {
    let (mut home, _) = Home::create();
    let first = vec![mk_todo(1, 1, "first", false)];
    let second = vec![mk_todo(1, 2, "second", true)];
    home.update(Msg::MakeReq);
    home.update(Msg::MakeReq);
    home.update(Msg::Resp(Ok(first)));
    home.update(Msg::Resp(Ok(second.clone())));
    assert_eq!(home.todos, Some(second));
}

#[test]
fn failed_fetch_keeps_state() {
    let (mut home, _) = Home::create();
    home.update(Msg::Resp(Err(FetchError::Transport)));
    assert!(home.todos.is_none());
    let data = vec![mk_todo(1, 1, "kept", false)];
    home.update(Msg::Resp(Ok(data.clone())));
    home.update(Msg::Resp(Err(FetchError::Decode)));
    assert_eq!(home.todos, Some(data));
}

#[test]
fn home_view_wires_refresh() {
    let (home, _) = Home::create();
    let view = home.view();
    let outer = as_element(&view);
    assert_eq!(outer.classes, vec![CssClass::Todo]);
    let inner = as_element(&outer.children[0]);
    let bar = as_element(&inner.children[0]);
    assert_eq!(bar.classes, vec![CssClass::Refresh]);
    let button = as_element(&bar.children[0]);
    assert_eq!(button.tag, Tag::Button);
    assert_eq!(button.onclick, Some(ClickAction::Refresh));
    assert_eq!(as_text(&button.children[0]), "refresh");
    let list_view = as_element(&inner.children[1]);
    assert_eq!(as_element(&list_view.children[0]).classes, vec![CssClass::Loading]);
}

#[test]
fn detail_renders_record() {
    let (mut detail, msg) = Detail::create(&DetailProps { todo_id: 3 });
    assert!(matches!(msg, DetailMsg::MakeReq(3)));
    detail.update(msg);
    detail.update(DetailMsg::Resp(Ok(mk_todo(1, 3, "fix bug", false))));
    let view = detail.view();
    let outer = as_element(&view);
    assert_eq!(outer.classes, vec![CssClass::Todo]);
    let d = as_element(&outer.children[0]);
    assert_eq!(d.classes, vec![CssClass::Detail]);
    let heading = as_element(&d.children[0]);
    assert_eq!(heading.tag, Tag::H1);
    assert_eq!(as_text(&heading.children[0]), "fix bug");
    assert_eq!(as_text(&heading.children[1]), " (");
    let id_span = as_element(&heading.children[2]);
    assert_eq!(id_span.tag, Tag::Span);
    assert_eq!(id_span.classes, vec![CssClass::Id]);
    assert_eq!(as_text(&id_span.children[0]), "3");
    assert_eq!(as_text(&heading.children[3]), ")");
    let attribution = as_element(&d.children[1]);
    assert_eq!(as_text(&attribution.children[0]), "by user ");
    assert_eq!(as_text(&attribution.children[1]), "1");
    let status = as_element(&d.children[2]);
    assert_eq!(status.classes, vec![CssClass::NotCompleted]);
    assert_eq!(as_text(&status.children[0]), "not done");
}

#[test]
fn detail_completed_marker() {
    let (mut detail, _) = Detail::create(&DetailProps { todo_id: 8 });
    detail.update(DetailMsg::Resp(Ok(mk_todo(4, 8, "ship it", true))));
    let view = detail.view();
    let d = as_element(&as_element(&view).children[0]);
    let status = as_element(&d.children[2]);
    assert_eq!(status.classes, vec![CssClass::Completed]);
    assert_eq!(as_text(&status.children[0]), "done");
}

#[test]
fn detail_failure_keeps_loading() {
    let (mut detail, msg) = Detail::create(&DetailProps { todo_id: 3 });
    detail.update(msg);
    let (redraw, action) = detail.update(DetailMsg::Resp(Err(FetchError::Transport)));
    assert!(redraw);
    assert_eq!(action, None);
    let view = detail.view();
    let inner = as_element(&as_element(&view).children[0]);
    assert_eq!(inner.classes, vec![CssClass::Loading]);
    assert_eq!(as_text(&inner.children[0]), "loading...");
}

#[test]
fn detail_changed_refetches() {
    let (mut detail, _) = Detail::create(&DetailProps { todo_id: 3 });
    detail.update(DetailMsg::Resp(Ok(mk_todo(1, 3, "old", false))));
    let (redraw, msg) = detail.changed(&DetailProps { todo_id: 9 });
    assert!(redraw);
    assert!(matches!(msg, DetailMsg::MakeReq(9)));
    let (_, action) = detail.update(msg);
    assert_eq!(action, Some(Request::Item(9)));
    assert!(detail.todo.is_none());
}

#[test]
fn route_dispatch() {
    assert_eq!(parse_route("/"), Some(AppRoute::Home));
    assert_eq!(parse_route("/todo/7"), Some(AppRoute::Detail { id: 7 }));
    assert_eq!(switch(&AppRoute::Home), Dispatch::ToHome);
    assert_eq!(switch(&AppRoute::Detail { id: 7 }), Dispatch::ToDetail(7));
    assert_eq!(dispatch_path("/todo/7"), Dispatch::ToDetail(7));
    assert_eq!(dispatch_path("/"), Dispatch::ToHome);
    assert_eq!(parse_route("/todo/-1"), Some(AppRoute::Detail { id: -1 }));
    assert_eq!(dispatch_path("/todo/-1"), Dispatch::ToDetail(-1));
    assert_eq!(
        dispatch_path("/todo/-2147483648"),
        Dispatch::ToDetail(i32::MIN)
    );
}

#[test]
fn route_unmatched_paths() {
    let unmatched = [
        "",
        "/todos/1",
        "/todo/",
        "/todo/07",
        "/todo/-0",
        "/todo/-07",
        "/todo/7x",
        "//",
        "/todo/99999999999",
        "/todo/2147483648",
        "/todo/-2147483649",
    ];
    for path in unmatched {
        assert_eq!(dispatch_path(path), Dispatch::NotFound, "path {:?}", path);
    }
    assert_eq!(parse_route("/todo"), None);
    assert_eq!(
        dispatch_path("/todo/2147483647"),
        Dispatch::ToDetail(2147483647)
    );
}

#[test]
fn decimal_rendering() {
    assert_eq!(u64_to_string(0).as_str(), "0");
    assert_eq!(u64_to_string(10).as_str(), "10");
    assert_eq!(u64_to_string(307).as_str(), "307");
    assert_eq!(
        u64_to_string(u64::MAX).as_str(),
        "18446744073709551615"
    );
}

#[test]
fn request_paths() {
    assert_eq!(Request::Collection.path_suffix().as_str(), "/todos");
    assert_eq!(Request::Item(7).path_suffix().as_str(), "/todos/7");
    assert_eq!(Request::Item(0).path_suffix().as_str(), "/todos/0");
    assert_eq!(Request::Item(-3).path_suffix().as_str(), "/todos/-3");
}

#[test]
fn markup_names() {
    assert_eq!(CssClass::Todo.name(), "todo");
    assert_eq!(CssClass::Refresh.name(), "refresh");
    assert_eq!(CssClass::List.name(), "list");
    assert_eq!(CssClass::ListItem.name(), "list-item");
    assert_eq!(CssClass::Completed.name(), "completed");
    assert_eq!(CssClass::NotCompleted.name(), "not-completed");
    assert_eq!(CssClass::Detail.name(), "detail");
    assert_eq!(CssClass::Loading.name(), "loading");
    assert_eq!(CssClass::Id.name(), "id");
    assert_eq!(Tag::Div.name(), "div");
    assert_eq!(Tag::Span.name(), "span");
    assert_eq!(Tag::H1.name(), "h1");
    assert_eq!(Tag::Button.name(), "button");
}

#[test]
fn home_changed_never_redraws() {
    let (mut home, _) = Home::create();
    assert!(!home.changed());
}
