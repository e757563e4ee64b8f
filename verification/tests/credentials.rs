use lemmate::credentials::{forget_with, invite_token, key, load_with, location, save_with, Secrets};
use base64::Engine as _;
use lemmate::credentials::BrowserSignIn;
use lemmate::error::Error;
use sha2::Digest as _;
use std::cell::RefCell;
use std::collections::HashMap;

#[test]
fn an_invite_may_be_pasted_as_a_url_or_a_bare_token() {
    assert_eq!(invite_token("  abc123 "), "abc123");
    assert_eq!(invite_token("https://notes.example.org/#/invite/abc123"), "abc123");
    assert_eq!(invite_token("http://127.0.0.1:8080/#/invite/abc123\n"), "abc123");
    assert_eq!(invite_token(""), "");
}

#[test]
fn keys_drop_trailing_slashes_and_ws() {
    assert_eq!(key("https://x.example/"), "https://x.example");
    assert_eq!(key("https://x.example/ws"), "https://x.example");
    assert_eq!(key("https://x.example/ws//"), "https://x.example");
    assert_eq!(key("https://x.example"), "https://x.example");
}

/// A keychain that remembers in memory, or refuses everything.
struct Mem(RefCell<HashMap<String, String>>, bool);

impl Secrets for Mem {
    fn set(&self, a: &str, s: &str) -> Result<(), String> {
        if !self.1 {
            return Err("no secret service".into());
        }
        self.0.borrow_mut().insert(a.into(), s.into());
        Ok(())
    }
    fn get(&self, a: &str) -> Result<Option<String>, String> {
        Ok(self.0.borrow().get(a).cloned())
    }
    fn delete(&self, a: &str) -> Result<(), String> {
        self.0.borrow_mut().remove(a);
        Ok(())
    }
}

#[test]
fn round_trip_in_a_credentials_file() {
    let none: Option<&Mem> = None;
    // No keychain: the token is in the file.
    assert_eq!(load_with(none, None, "https://x.example"), None);
    let f = save_with(none, None, "https://x.example/", "tok1").unwrap();
    let f = save_with(none, Some(&f), "https://y.example", "tok2").unwrap();
    assert_eq!(load_with(none, Some(&f), "https://x.example").as_deref(), Some("tok1"));
    assert_eq!(load_with(none, Some(&f), "https://x.example/ws").as_deref(), Some("tok1"));
    let f = forget_with(none, Some(&f), "https://x.example").unwrap();
    assert_eq!(load_with(none, Some(&f), "https://x.example"), None);
    assert_eq!(load_with(none, Some(&f), "https://y.example").as_deref(), Some("tok2"));

    // A keychain that works: the file only says where the token is.
    let kc = Mem(RefCell::new(HashMap::new()), true);
    let f = save_with(Some(&kc), Some(&f), "https://k.example", "secret-k").unwrap();
    assert!(!f.contains("secret-k"), "{f}");
    assert!(f.contains("keychain = true"), "{f}");
    assert_eq!(location(Some(&f), "https://k.example", "/home/me/.config/lemmate/credentials.toml"), "the system keychain");
    assert_eq!(location(Some(&f), "https://y.example", "/c.toml"), "/c.toml");
    assert_eq!(load_with(Some(&kc), Some(&f), "https://k.example").as_deref(), Some("secret-k"));
    assert_eq!(load_with(none, Some(&f), "https://k.example"), None, "the keychain turned off afterwards");
    // ...and a file token written before the keychain is still read with one.
    assert_eq!(load_with(Some(&kc), Some(&f), "https://y.example").as_deref(), Some("tok2"));
    let f = forget_with(Some(&kc), Some(&f), "https://k.example").unwrap();
    assert!(kc.0.borrow().is_empty(), "forget empties the keychain too");
    assert_eq!(load_with(Some(&kc), Some(&f), "https://k.example"), None);

    // A keychain that refuses (no D-Bus session): the file, as before.
    let broken = Mem(RefCell::new(HashMap::new()), false);
    let f = save_with(Some(&broken), Some(&f), "https://z.example", "tok3").unwrap();
    assert_eq!(load_with(Some(&broken), Some(&f), "https://z.example").as_deref(), Some("tok3"));
}

#[test]
fn a_malformed_file_is_refused_before_the_keychain_is_asked() {
    let kc = Mem(RefCell::new(HashMap::new()), true);
    assert_eq!(
        save_with(Some(&kc), Some("servers = 3\n"), "https://k.example", "t"),
        Err(Error::Sync("credentials file is malformed".into()))
    );
    assert!(kc.0.borrow().is_empty());
    // A file that is not TOML counts as empty.
    let f = save_with(Some(&kc), Some("not = = toml"), "https://k.example", "t").unwrap();
    assert_eq!(load_with(Some(&kc), Some(&f), "https://k.example").as_deref(), Some("t"));
}

#[test]
fn bytes_are_written_as_lower_case_hex() {
    assert_eq!(lemmate::credentials::hex(&[0, 15, 16, 171, 255]), "000f10abff");
    assert_eq!(lemmate::credentials::hex(&[]), "");
}

#[test]
fn a_browser_sign_in_asks_with_a_challenge_and_checks_the_answer() {
    let s = BrowserSignIn::start("https://notes.example.org/ws", "http://127.0.0.1:4545/callback", "my laptop").unwrap();
    assert_eq!(s.server, "https://notes.example.org");
    assert!(
        s.url.starts_with("https://notes.example.org/?authorize=app&redirect_uri=http%3A%2F%2F127.0.0.1%3A4545%2Fcallback&state="),
        "{}",
        s.url
    );
    assert!(s.url.ends_with("&device=my+laptop"), "{}", s.url);
    let state: String = s.url.split("state=").nth(1).unwrap().chars().take(32).collect();
    assert!(state.chars().all(|c| c.is_ascii_hexdigit()));
    assert_eq!(s.code_verifier().len(), 64);
    let challenge = base64::engine::general_purpose::URL_SAFE_NO_PAD.encode(sha2::Sha256::digest(s.code_verifier().as_bytes()));
    assert!(s.url.contains(&format!("&code_challenge={challenge}&")), "{}", s.url);

    assert!(s.is_callback("http://127.0.0.1:4545/callback/?code=x&state=y"));
    assert!(s.is_callback("http://127.0.0.1:4545/callback#frag"));
    assert!(!s.is_callback("http://127.0.0.1:4545/other"));

    assert_eq!(s.finish_code(&format!("?code=abc&state={state}")).unwrap(), "abc");
    assert_eq!(s.finish_code("error=access_denied"), Err(Error::Sync("sign-in was cancelled".into())));
    assert_eq!(s.finish_code("error=server_error&code=x"), Err(Error::Sync("server_error".into())));
    assert_eq!(
        s.finish_code("code=abc&state=nope"),
        Err(Error::Sync("the answer does not belong to this sign-in".into()))
    );
    assert_eq!(s.finish_code(&format!("state={state}")), Err(Error::Sync("the answer carries no code".into())));
}

#[test]
fn a_server_that_is_no_url_is_refused_at_the_start() {
    match lemmate::credentials::BrowserSignIn::start("not a url", "http://127.0.0.1/cb", "d") {
        Err(lemmate::error::Error::Sync(m)) => assert!(m.starts_with("not a url is not a URL: "), "{m}"),
        other => panic!("{other:?}"),
    }
}
