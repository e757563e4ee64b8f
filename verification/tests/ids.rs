use lemmate::ids::{DocId, NoteId, VaultId};

#[test]
fn doc_id_round_trips() {
    let n = DocId::Note(NoteId::new());
    let v = DocId::Vault(VaultId::new());
    assert_eq!(n.to_string().parse::<DocId>().unwrap(), n);
    assert_eq!(v.to_string().parse::<DocId>().unwrap(), v);
    assert!(v.to_string().starts_with("vault:"));
    assert!("nope".parse::<DocId>().is_err());
}

#[test]
fn ulid_texts_are_base32() {
    let id: NoteId = "01K5Z0000000000000000000AA".parse().unwrap();
    assert_eq!(id.to_string(), "01K5Z0000000000000000000AA");
    assert_eq!(NoteId(0).to_string(), "00000000000000000000000000");
    assert_eq!(NoteId(31).to_string(), "0000000000000000000000000Z");
    assert!("01K5Z0000000000000000000A".parse::<NoteId>().is_err(), "one character short");
    assert!(VaultId::parse("01K5Z0000000000000000000AU").is_err(), "U is not base32");
}
