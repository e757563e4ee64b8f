use lemmate::json::{parse_json, Json};
use lemmate::mcp::{Server, DEFAULT_PROTOCOL, SERVER_VERSION};
use lemmate::remote::{normalize_path, Note, NoteSummary, NotesApi, RemoteError, SearchHit, TagCount, VaultSummary};
use std::cell::RefCell;

const TOOL_NAMES: [&str; 8] = [
    "search_notes",
    "read_note",
    "write_note",
    "append_to_note",
    "list_notes",
    "get_daily_note",
    "get_backlinks",
    "list_tags",
];

/// An in-memory vault, enough to drive the dispatcher without a server.
#[derive(Default)]
struct Fake {
    notes: RefCell<Vec<Note>>,
}

impl Fake {
    fn with(paths: &[(&str, &str, &str)]) -> Self {
        let notes = paths
            .iter()
            .map(|(id, path, content)| Note {
                id: (*id).to_owned(),
                path: (*path).to_owned(),
                title: None,
                content: (*content).to_owned(),
            })
            .collect();
        Self { notes: RefCell::new(notes) }
    }
}

fn gone() -> RemoteError {
    RemoteError::Other("gone".to_owned())
}

impl NotesApi for Fake {
    fn vaults(&self) -> Result<Vec<VaultSummary>, RemoteError> {
        Ok(vec![VaultSummary { id: "V".into(), notes: self.notes.borrow().len() as u32 }])
    }
    fn notes(&self, _v: &str) -> Result<Vec<NoteSummary>, RemoteError> {
        Ok(self.notes.borrow().iter().map(Note::summary).collect())
    }
    fn note(&self, _v: &str, id: &str) -> Result<Note, RemoteError> {
        self.notes.borrow().iter().find(|n| n.id == id).cloned().ok_or_else(gone)
    }
    fn create(&self, _v: &str, path: &str, content: &str) -> Result<Note, RemoteError> {
        let note = Note {
            id: format!("N{}", self.notes.borrow().len()),
            path: normalize_path(path),
            title: None,
            content: content.to_owned(),
        };
        self.notes.borrow_mut().push(note.clone());
        Ok(note)
    }
    fn replace(&self, _v: &str, id: &str, content: &str) -> Result<Note, RemoteError> {
        let mut notes = self.notes.borrow_mut();
        let note = notes.iter_mut().find(|n| n.id == id).ok_or_else(gone)?;
        note.content = content.to_owned();
        Ok(note.clone())
    }
    fn rename(&self, _v: &str, _id: &str, _path: &str) -> Result<(), RemoteError> {
        Ok(())
    }
    fn delete(&self, _v: &str, _id: &str) -> Result<(), RemoteError> {
        Ok(())
    }
    fn daily(&self, v: &str, date: &str) -> Result<Note, RemoteError> {
        let path = format!("Daily/{date}.md");
        if let Some(n) = self.notes.borrow().iter().find(|n| n.path == path) {
            return Ok(n.clone());
        }
        self.create(v, &path, &format!("# {date}\n\n"))
    }
    fn search(&self, _v: &str, q: &str, _limit: u32) -> Result<Vec<SearchHit>, RemoteError> {
        Ok(self
            .notes
            .borrow()
            .iter()
            .filter(|n| n.content.contains(q))
            .map(|n| SearchHit {
                note_id: n.id.clone(),
                title: None,
                snippet: n.content.lines().next().unwrap_or_default().to_owned(),
            })
            .collect())
    }
    fn backlinks(&self, _v: &str, _id: &str) -> Result<Vec<NoteSummary>, RemoteError> {
        Ok(vec![])
    }
    fn tags(&self, _v: &str) -> Result<Vec<TagCount>, RemoteError> {
        Ok(vec![TagCount { tag: "project".into(), count: 2 }])
    }
    fn tagged(&self, _v: &str, _tag: &str) -> Result<Vec<NoteSummary>, RemoteError> {
        Ok(vec![])
    }
}

const TODAY: &str = "2026-01-01";

fn parse(text: &str) -> Json {
    parse_json(text).expect("test input is JSON")
}

fn ask(server: &Server<'_, Fake>, msg: &str) -> Json {
    server.dispatch(&parse(msg), TODAY).expect("expected a response")
}

/// The member under each key in turn.
fn at<'a>(j: &'a Json, keys: &[&str]) -> Option<&'a Json> {
    let mut cur = j;
    for k in keys {
        cur = match cur {
            Json::Object(m) => &m.iter().find(|(key, _)| key == k)?.1,
            _ => return None,
        };
    }
    Some(cur)
}

fn text_at<'a>(j: &'a Json, keys: &[&str]) -> Option<&'a str> {
    match at(j, keys)? {
        Json::Str(s) => Some(s.as_str()),
        _ => None,
    }
}

fn number_at(j: &Json, keys: &[&str]) -> Option<String> {
    match at(j, keys)? {
        Json::Number(n) => Some(n.clone()),
        _ => None,
    }
}

fn item(j: &Json, i: usize) -> &Json {
    match j {
        Json::Array(a) => &a[i],
        other => panic!("not an array: {other:?}"),
    }
}

fn tool_text(r: &Json) -> String {
    let content = at(r, &["result", "content"]).expect("content");
    text_at(item(content, 0), &["text"]).expect("text").to_owned()
}

fn is_error(r: &Json) -> bool {
    at(r, &["result", "isError"]) == Some(&Json::Bool(true))
}

#[test]
fn initialize_echoes_a_known_protocol_and_falls_back_otherwise() {
    let api = Fake::default();
    let s = Server::new(&api, "V".to_owned());
    let r = ask(
        &s,
        r#"{"jsonrpc":"2.0","id":1,"method":"initialize","params":{"protocolVersion":"2024-11-05","clientInfo":{"name":"t","version":"1"}}}"#,
    );
    assert_eq!(text_at(&r, &["jsonrpc"]), Some("2.0"));
    assert_eq!(number_at(&r, &["id"]).as_deref(), Some("1"));
    assert_eq!(text_at(&r, &["result", "protocolVersion"]), Some("2024-11-05"));
    assert_eq!(text_at(&r, &["result", "serverInfo", "name"]), Some("notes"));
    assert_eq!(text_at(&r, &["result", "serverInfo", "version"]), Some(SERVER_VERSION));
    assert!(matches!(at(&r, &["result", "capabilities", "tools"]), Some(Json::Object(_))));
    assert!(matches!(at(&r, &["result", "capabilities", "resources"]), Some(Json::Object(_))));

    let r = ask(&s, r#"{"jsonrpc":"2.0","id":2,"method":"initialize","params":{"protocolVersion":"1999-01-01"}}"#);
    assert_eq!(text_at(&r, &["result", "protocolVersion"]), Some(DEFAULT_PROTOCOL));
}

#[test]
fn tools_list_advertises_the_eight_spec_tools_with_schemas() {
    let api = Fake::default();
    let s = Server::new(&api, "V".to_owned());
    let r = ask(&s, r#"{"jsonrpc":"2.0","id":"t","method":"tools/list"}"#);
    let tools = match at(&r, &["result", "tools"]) {
        Some(Json::Array(t)) => t,
        other => panic!("tools array expected, got {other:?}"),
    };
    let names: Vec<&str> = tools.iter().map(|t| text_at(t, &["name"]).unwrap()).collect();
    assert_eq!(names, TOOL_NAMES);
    for t in tools {
        assert!(text_at(t, &["description"]).is_some_and(|d| d.len() > 20), "{t:?}");
        assert_eq!(text_at(t, &["inputSchema", "type"]), Some("object"), "{t:?}");
        assert!(matches!(at(t, &["inputSchema", "properties"]), Some(Json::Object(_))), "{t:?}");
    }
}

#[test]
fn unknown_methods_are_method_not_found() {
    let api = Fake::default();
    let s = Server::new(&api, "V".to_owned());
    let r = ask(&s, r#"{"jsonrpc":"2.0","id":9,"method":"nope/what"}"#);
    assert_eq!(number_at(&r, &["error", "code"]).as_deref(), Some("-32601"));
    assert!(text_at(&r, &["error", "message"]).unwrap().contains("nope/what"));
    assert!(at(&r, &["result"]).is_none());
}

#[test]
fn notifications_are_never_answered() {
    let api = Fake::default();
    let s = Server::new(&api, "V".to_owned());
    assert_eq!(s.dispatch(&parse(r#"{"jsonrpc":"2.0","method":"notifications/initialized"}"#), TODAY), None);
    // Not even unknown ones.
    assert_eq!(s.dispatch(&parse(r#"{"jsonrpc":"2.0","method":"nope"}"#), TODAY), None);
    assert_eq!(s.handle_line("   ", TODAY), None);
}

#[test]
fn malformed_input_is_a_parse_error() {
    let api = Fake::default();
    let s = Server::new(&api, "V".to_owned());
    let r = s.handle_line("{not json", TODAY).expect("a parse error is reported");
    assert_eq!(text_at(&r, &["jsonrpc"]), Some("2.0"));
    assert_eq!(at(&r, &["id"]), Some(&Json::Null));
    assert_eq!(number_at(&r, &["error", "code"]).as_deref(), Some("-32700"));
    // A well-formed value that is not a request:
    let r = ask(&s, r#"{"jsonrpc":"2.0","id":3,"params":{}}"#);
    assert_eq!(number_at(&r, &["error", "code"]).as_deref(), Some("-32600"));
}

#[test]
fn ping_answers_an_empty_object() {
    let api = Fake::default();
    let s = Server::new(&api, "V".to_owned());
    let r = ask(&s, r#"{"jsonrpc":"2.0","id":4,"method":"ping"}"#);
    assert_eq!(at(&r, &["result"]), Some(&Json::Object(vec![])));
}

#[test]
fn tool_calls_round_trip_through_the_api() {
    let api = Fake::with(&[("N0", "Projects/plan.md", "# Plan\n\nstep one\n")]);
    let s = Server::new(&api, "V".to_owned());

    let call = |name: &str, args: &str| {
        ask(
            &s,
            &format!(r#"{{"jsonrpc":"2.0","id":1,"method":"tools/call","params":{{"name":"{name}","arguments":{args}}}}}"#),
        )
    };

    let r = call("read_note", r#"{ "path_or_id": "Projects/plan" }"#);
    assert!(!is_error(&r));
    let content = at(&r, &["result", "content"]).unwrap();
    assert_eq!(text_at(item(content, 0), &["type"]), Some("text"));
    assert_eq!(tool_text(&r), "# Plan\n\nstep one\n");

    let r = call("write_note", r##"{ "path_or_id": "Ideas/new", "content": "# New\n" }"##);
    assert!(!is_error(&r));
    assert_eq!(api.notes.borrow().len(), 2);
    assert_eq!(api.notes.borrow()[1].path, "Ideas/new.md");

    let r = call("append_to_note", r#"{ "path_or_id": "Ideas/new.md", "content": "more" }"#);
    assert!(!is_error(&r));
    assert_eq!(api.notes.borrow()[1].content, "# New\nmore\n");

    let r = call("list_notes", r#"{ "folder": "Projects" }"#);
    let text = tool_text(&r);
    assert!(text.contains("Projects/plan.md"), "{text}");
    assert!(!text.contains("Ideas/"), "{text}");

    let r = call("get_daily_note", r#"{ "date": "2026-01-02" }"#);
    assert_eq!(tool_text(&r), "# 2026-01-02\n\n");

    let r = call("list_tags", "{}");
    assert!(tool_text(&r).contains("#project (2)"));

    // Failures inside a tool are results, not JSON-RPC errors.
    let r = call("read_note", r#"{ "path_or_id": "nope.md" }"#);
    assert!(is_error(&r));
    assert!(tool_text(&r).contains("nope.md"));
    let r = call("read_note", "{}");
    assert!(is_error(&r));
    // An unknown tool is a protocol error.
    let r = call("frobnicate", "{}");
    assert_eq!(number_at(&r, &["error", "code"]).as_deref(), Some("-32602"));
}

#[test]
fn resources_expose_one_note_uri_each() {
    let api = Fake::with(&[("N0", "Projects/my plan.md", "hello\n")]);
    let s = Server::new(&api, "V".to_owned());
    let r = ask(&s, r#"{"jsonrpc":"2.0","id":1,"method":"resources/list"}"#);
    let list = match at(&r, &["result", "resources"]) {
        Some(Json::Array(l)) => l,
        other => panic!("{other:?}"),
    };
    assert_eq!(list.len(), 1);
    assert_eq!(text_at(&list[0], &["uri"]), Some("note://V/Projects/my%20plan.md"));
    assert_eq!(text_at(&list[0], &["mimeType"]), Some("text/markdown"));

    let uri = text_at(&list[0], &["uri"]).unwrap().to_owned();
    let r = ask(&s, &format!(r#"{{"jsonrpc":"2.0","id":2,"method":"resources/read","params":{{"uri":"{uri}"}}}}"#));
    let contents = at(&r, &["result", "contents"]).unwrap();
    assert_eq!(text_at(item(contents, 0), &["text"]), Some("hello\n"));
    assert_eq!(text_at(item(contents, 0), &["mimeType"]), Some("text/markdown"));

    let r = ask(&s, r#"{"jsonrpc":"2.0","id":3,"method":"resources/read","params":{"uri":"http://x/y"}}"#);
    assert_eq!(number_at(&r, &["error", "code"]).as_deref(), Some("-32602"));
}

#[test]
fn batches_answer_only_the_requests() {
    let api = Fake::default();
    let s = Server::new(&api, "V".to_owned());
    let r = ask(
        &s,
        r#"[{"jsonrpc":"2.0","method":"notifications/initialized"},{"jsonrpc":"2.0","id":1,"method":"ping"}]"#,
    );
    match &r {
        Json::Array(a) => {
            assert_eq!(a.len(), 1);
            assert_eq!(number_at(&a[0], &["id"]).as_deref(), Some("1"));
        },
        other => panic!("{other:?}"),
    }
    assert_eq!(
        s.dispatch(&parse(r#"[{"jsonrpc":"2.0","method":"notifications/initialized"}]"#), TODAY),
        None,
        "a batch of notifications owes nothing"
    );
}

#[test]
fn tool_arguments_are_read_before_the_server_is_asked() {
    let api = Fake::default();
    let s = Server::new(&api, "V".to_owned());
    let call = |name: &str, args: &str| {
        ask(&s, &format!(r#"{{"jsonrpc":"2.0","id":1,"method":"tools/call","params":{{"name":"{name}","arguments":{args}}}}}"#))
    };
    let r = call("get_daily_note", r#"{ "date": "tomorrow" }"#);
    assert!(is_error(&r));
    assert_eq!(tool_text(&r), "date must be YYYY-MM-DD (got \"tomorrow\")");
    let r = call("search_notes", r#"{ "query": "  " }"#);
    assert_eq!(tool_text(&r), "missing required argument \"query\"");
    let r = call("get_daily_note", "{}");
    assert_eq!(tool_text(&r), "# 2026-01-01\n\n");
}
