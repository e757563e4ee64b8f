use lemmate::client::{
    collision_renames, http_url, path_change, plan_vault_sync, suffixed, ws_url, LinkAction, LinkEvent,
    LinkState, PathChange, RECONNECT_MAX_MS, RECONNECT_MIN_MS,
};
use lemmate::ids::NoteId;

#[test]
fn ws_urls() {
    assert_eq!(ws_url("http://h:1").unwrap(), "ws://h:1/ws");
    assert_eq!(ws_url("https://h/").unwrap(), "wss://h/ws");
    assert_eq!(ws_url("ws://h/ws").unwrap(), "ws://h/ws");
    assert!(ws_url("h:1").is_err());
}

#[test]
fn http_urls() {
    assert_eq!(http_url("http://h:1/").unwrap(), "http://h:1");
    assert_eq!(http_url("ws://h:1/ws").unwrap(), "http://h:1");
    assert_eq!(http_url("wss://h").unwrap(), "https://h");
    assert!(http_url("h").is_err());
}

#[test]
fn suffixes() {
    assert_eq!(suffixed("a.md", 2), "a (2).md");
    assert_eq!(suffixed("dir/a.b.md", 3), "dir/a.b (3).md");
    assert_eq!(suffixed("noext", 2), "noext (2)");
}

#[test]
fn dot_files_and_dotted_folders_number_at_the_end() {
    assert_eq!(suffixed(".hidden", 2), ".hidden (2)");
    assert_eq!(suffixed("dir/.md", 4), "dir/.md (4)");
    assert_eq!(suffixed("a.md", 10), "a (10).md");
}

#[test]
fn a_bad_scheme_says_what_it_got() {
    match ws_url("ftp://x") {
        Err(e) => assert_eq!(e.message(), "sync: server url must start with http(s):// or ws(s)://, got ftp://x"),
        Ok(u) => panic!("{u}"),
    }
}

#[test]
fn touched_paths_are_decided_from_the_disk() {
    let id = NoteId(7);
    assert_eq!(path_change(true, Some(id)), PathChange::Edit(id));
    assert_eq!(path_change(true, None), PathChange::Create);
    assert_eq!(path_change(false, Some(id)), PathChange::Remove);
    assert_eq!(path_change(false, None), PathChange::Nothing);
}

#[test]
fn reconnects_back_off_and_one_shot_runs_finish_when_idle() {
    let mut s = LinkState::new(false, "ws://h/ws".into());
    assert_eq!(s.on_event(LinkEvent::ConnectFailed("refused".into())), LinkAction::Retry { wait_ms: RECONNECT_MIN_MS });
    assert_eq!(s.on_event(LinkEvent::Closed), LinkAction::Retry { wait_ms: 2000 });
    for _ in 0..10 {
        s.on_event(LinkEvent::Closed);
    }
    assert_eq!(s.backoff_ms, RECONNECT_MAX_MS);
    assert_eq!(s.on_event(LinkEvent::Connected), LinkAction::Continue);
    assert_eq!(s.backoff_ms, RECONNECT_MIN_MS);

    let mut once = LinkState::new(true, "ws://h/ws".into());
    assert_eq!(once.on_event(LinkEvent::Connected), LinkAction::Continue);
    assert_eq!(once.on_event(LinkEvent::Tick { now_ms: 1000, idle: true }), LinkAction::Continue);
    assert_eq!(once.on_event(LinkEvent::Tick { now_ms: 1200, idle: true }), LinkAction::Continue);
    assert_eq!(once.on_event(LinkEvent::Tick { now_ms: 1250, idle: false }), LinkAction::Continue);
    assert_eq!(once.on_event(LinkEvent::Tick { now_ms: 1300, idle: true }), LinkAction::Continue);
    assert_eq!(once.on_event(LinkEvent::Tick { now_ms: 1600, idle: true }), LinkAction::Finish);
    assert_eq!(
        once.on_event(LinkEvent::ConnectFailed("refused".into())),
        LinkAction::Fail("cannot connect to ws://h/ws: refused".into())
    );
    assert_eq!(once.on_event(LinkEvent::Closed), LinkAction::Fail("connection lost before sync completed".into()));
}

fn e(id: u128, p: &str) -> (NoteId, String) {
    (NoteId(id), p.to_owned())
}

#[test]
fn the_first_claim_keeps_a_path_and_later_ones_are_numbered() {
    let entries = vec![e(1, "a.md"), e(2, "a.md"), e(3, "a.md"), e(4, "b.md")];
    let local = vec![e(9, "a (2).md")];
    assert_eq!(
        collision_renames(&entries, &local),
        vec![None, Some("a (3).md".to_owned()), Some("a (4).md".to_owned()), None]
    );
    let entries = vec![e(1, "x"), e(2, "x (2)"), e(3, "x")];
    assert_eq!(collision_renames(&entries, &[]), vec![None, None, Some("x (3)".to_owned())]);
}

#[test]
fn following_the_vault_adopts_moves_and_removes() {
    let entries = vec![e(1, "a.md"), e(2, "new/b.md"), e(3, "c.md")];
    let local = vec![e(2, "b.md"), e(3, "c.md"), e(4, "gone.md")];
    let plan = plan_vault_sync(&entries, &local);
    assert_eq!(plan.adopt, vec![e(1, "a.md")]);
    assert_eq!(plan.moves, vec![(NoteId(2), "b.md".to_owned(), "new/b.md".to_owned())]);
    assert_eq!(plan.gone, vec![NoteId(4)]);
}
