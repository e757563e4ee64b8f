use lemmate::sync::Frame;

#[test]
fn rejects_malformed_frames() {
    assert!(Frame::decode(&[]).is_err());
    assert!(Frame::decode(&[0, 5, b'a']).is_err());
    assert!(Frame::decode(&[0, 0]).is_err());
}

#[test]
fn frames_round_trip_and_say_what_is_wrong() {
    let f = Frame { doc_id: "01ARZ3NDEKTSV4RRFFQ69G5FAV".to_owned(), payload: vec![0, 1, 2, 255] };
    let bytes = f.encode();
    assert_eq!(&bytes[..2], &[0, 26]);
    assert_eq!(Frame::decode(&bytes).unwrap(), f);
    let g = Frame { doc_id: "vault:é".to_owned(), payload: vec![] };
    assert_eq!(g.encode(), [0, 8, b'v', b'a', b'u', b'l', b't', b':', 0xc3, 0xa9]);
    assert_eq!(Frame::decode(&g.encode()).unwrap(), g);
    assert_eq!(Frame::decode(&[1]).unwrap_err(), lemmate::error::Error::Frame("too short"));
    assert_eq!(Frame::decode(&[0, 2, b'a']).unwrap_err(), lemmate::error::Error::Frame("doc id truncated"));
    assert_eq!(Frame::decode(&[0, 1, 0xff]).unwrap_err(), lemmate::error::Error::Frame("doc id not utf-8"));
    assert_eq!(Frame::decode(&[0, 0, 9]).unwrap_err(), lemmate::error::Error::Frame("empty doc id"));
}
