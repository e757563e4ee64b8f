use lemmate::remote::{
    given_vault, is_not_found, lookup_key, normalize_path, only_vault, pick_note, server_base,
    status_of, HttpError, Lookup, Note, NoteSummary, RemoteError, VaultSummary,
};

#[test]
fn paths_are_normalised_like_the_server_does() {
    assert_eq!(normalize_path("Projects/plan"), "Projects/plan.md");
    assert_eq!(normalize_path("/Projects/plan.md"), "Projects/plan.md");
    assert_eq!(normalize_path("./notes.qmd"), "notes.qmd");
    assert_eq!(normalize_path("  spaced out  "), "spaced out.md");
}

#[test]
fn http_errors_explain_themselves_and_keep_the_status() {
    let e = RemoteError::Http(HttpError { status: 401, request: "GET /vaults".into() });
    assert_eq!(status_of(&e), Some(401));
    assert!(e.message().contains("notes login"), "{}", e.message());
    let e = RemoteError::Http(HttpError { status: 404, request: "GET /vaults/x/notes/y".into() });
    assert!(is_not_found(&e));
    assert!(e.message().contains("not found or no access"), "{}", e.message());
}

#[test]
fn a_bad_server_url_is_rejected_before_any_request() {
    assert!(server_base("notes.example.org").is_err());
    assert_eq!(server_base("http://127.0.0.1:1/").unwrap(), "http://127.0.0.1:1");
}

#[test]
fn an_http_message_names_status_and_request() {
    let e = HttpError { status: 503, request: "GET /vaults".into() };
    assert_eq!(e.message(), "the server failed (HTTP 503 from GET /vaults)");
    let e = HttpError { status: 418, request: "PUT /x".into() };
    assert_eq!(e.explain(), "the request failed");
    let other = RemoteError::Other("offline".into());
    assert_eq!(status_of(&other), None);
    assert!(!is_not_found(&other));
}

fn s(id: &str, path: &str) -> NoteSummary {
    NoteSummary { id: id.into(), path: path.into(), title: None }
}

#[test]
fn lookups_prefer_exact_then_case_then_leaf() {
    let notes = vec![s("1", "b/Plan.md"), s("2", "a/plan.md"), s("3", "plan.md"), s("4", "Plan.md")];
    assert_eq!(pick_note(&notes, "plan.md").unwrap().id, "3");
    assert_eq!(pick_note(&notes, "PLAN.md").unwrap().id, "4");
    let notes = vec![s("1", "b/Plan.md"), s("2", "a/Plan.md")];
    assert_eq!(pick_note(&notes, "Plan.md").unwrap().id, "2");
    assert_eq!(pick_note(&notes, "x/Plan.md"), None);
    assert_eq!(pick_note(&notes, "Other.md"), None);
}

#[test]
fn a_key_is_an_id_or_a_path() {
    assert!(lookup_key("   ").is_err());
    assert_eq!(lookup_key(" 01ARZ3NDEKTSV4RRFFQ69G5FAV ").unwrap(), Lookup::Id("01ARZ3NDEKTSV4RRFFQ69G5FAV".into()));
    assert_eq!(lookup_key(" Projects/plan ").unwrap(), Lookup::Path("Projects/plan.md".into()));
}

#[test]
fn the_vault_is_the_one_given_or_the_only_one() {
    assert_eq!(given_vault(None), None);
    assert_eq!(given_vault(Some("  ")), None);
    assert_eq!(given_vault(Some(" 01ARZ3NDEKTSV4RRFFQ69G5FAV")), Some(Ok("01ARZ3NDEKTSV4RRFFQ69G5FAV".to_owned())));
    match given_vault(Some("nope")) {
        Some(Err(e)) => assert_eq!(e.message(), "--vault \"nope\" is not a vault id"),
        other => panic!("{other:?}"),
    }
    let one = vec![VaultSummary { id: "v1".into(), notes: 3 }];
    assert_eq!(only_vault(&one).unwrap(), "v1");
    assert!(only_vault(&[]).unwrap_err().message().contains("no vaults yet"));
    let two = vec![VaultSummary { id: "v1".into(), notes: 3 }, VaultSummary { id: "v2".into(), notes: 0 }];
    assert_eq!(
        only_vault(&two).unwrap_err().message(),
        "several vaults are available; pass --vault (or set NOTES_VAULT):\n  v1 (3 notes)\n  v2 (0 notes)"
    );
}

#[test]
fn a_note_sums_itself_up() {
    let n = Note { id: "i".into(), path: "p.md".into(), title: Some("T".into()), content: "x".into() };
    assert_eq!(n.summary(), NoteSummary { id: "i".into(), path: "p.md".into(), title: Some("T".into()) });
}
