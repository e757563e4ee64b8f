use lemmate::doc::NoteDoc;

#[test]
fn set_text_and_sync_between_replicas() {
    let mut a = NoteDoc::new();
    let u1 = a.set_text("# Title\n\nHello world.\n");
    assert!(!u1.is_empty());

    let mut b = NoteDoc::from_updates(&[u1]).unwrap();
    assert_eq!(b.text(), a.text());

    // A edits the start, B edits the end, both offline; merge must keep both.
    let ua = a.set_text("# Title!\n\nHello world.\n");
    let ub = b.set_text("# Title\n\nHello world. Bye.\n");
    b.apply_update(&ua).unwrap();
    a.apply_update(&ub).unwrap();
    assert_eq!(a.text(), b.text());
    assert_eq!(a.text(), "# Title!\n\nHello world. Bye.\n");
}

#[test]
fn diff_since_gives_only_missing_updates() {
    let mut a = NoteDoc::new();
    a.set_text("one");
    let mut b = NoteDoc::from_updates(&[a.encode_full()]).unwrap();
    a.set_text("one two");
    let missing = a.diff_since(&b.state_vector());
    b.apply_update(&missing).unwrap();
    assert_eq!(b.text(), "one two");
    assert!(a.diff_since(&b.state_vector()).len() <= 2, "nothing left to send");
}

#[test]
fn multibyte_edits_land_on_char_boundaries() {
    let mut d = NoteDoc::new();
    d.set_text("héllo 😀 wörld");
    d.set_text("héllo 😀😀 wörld!");
    assert_eq!(d.text(), "héllo 😀😀 wörld!");
}

#[test]
fn an_unchanged_text_is_no_update_and_garbage_is_refused() {
    let mut d = NoteDoc::new();
    assert_eq!(d.try_set_text("same").map(|u| u.is_empty()), Some(false));
    assert_eq!(d.set_text("same"), Vec::<u8>::new());
    assert!(d.apply_update(&[0xff, 0xff, 0xff]).is_err());
    assert_eq!(d.text(), "same");
}
