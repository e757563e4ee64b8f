use lemmate::config::{format_help, needs_setup, resolve, Config, ConfigFileError, Layout, Settings};
use lemmate::ids::VaultId;
use lemmate::local::SetupRequest;

fn file(root: Option<&str>, vault: Option<&str>, server: Option<&str>) -> Settings {
    Settings {
        root_dir: root.map(str::to_owned),
        vault_dir: vault.map(str::to_owned),
        server_url: server.map(str::to_owned),
        ..Default::default()
    }
}

#[test]
fn a_root_opens_every_vault_and_a_vault_dir_opens_one() {
    let cfg = resolve(&Settings::default(), &file(Some("/n/all"), None, Some("https://s")), Some("/c.toml")).unwrap();
    assert_eq!(cfg.layout, Layout::Root("/n/all".into()));

    let mut f = file(None, Some("/n/one"), Some("https://s"));
    f.vault_id = Some("01ARZ3NDEKTSV4RRFFQ69G5FAV".into());
    let cfg = resolve(&Settings::default(), &f, Some("/c.toml")).unwrap();
    assert_eq!(
        cfg.layout,
        Layout::Single { dir: "/n/one".into(), id: Some(VaultId::parse("01ARZ3NDEKTSV4RRFFQ69G5FAV").unwrap()) }
    );
}

#[test]
fn a_flag_overrides_the_layout_the_file_chose() {
    let flags = file(None, Some("/n/one"), None);
    let cfg = resolve(&flags, &file(Some("/n/all"), None, Some("https://s")), None).unwrap();
    assert_eq!(cfg.layout, Layout::Single { dir: "/n/one".into(), id: None });
}

#[test]
fn a_folder_without_a_server_is_a_standalone_app() {
    let cfg = resolve(&Settings::default(), &file(Some("/n/all"), None, None), None).unwrap();
    assert_eq!(cfg.layout, Layout::Root("/n/all".into()));
    assert_eq!(cfg.server_url, None);
    // An empty string is how a hand-written file says the same thing.
    let cfg = resolve(&Settings::default(), &file(Some("/n/all"), None, Some("")), None).unwrap();
    assert_eq!(cfg.server_url, None);
}

#[test]
fn a_server_without_a_folder_explains_itself() {
    let e = resolve(&Settings::default(), &file(None, None, Some("https://s")), Some("/c.toml")).unwrap_err();
    assert!(e.contains("--root-dir"), "the help names the flag to pass: {e}");
    assert!(e.contains("writes /c.toml for\n"), "{e}");
    assert!(format_help(None).contains("desktop.toml in your configuration directory"));
}

#[test]
fn a_bad_vault_id_is_refused() {
    let mut f = file(None, Some("/n/one"), None);
    f.vault_id = Some(" nope ".into());
    assert_eq!(resolve(&Settings::default(), &f, None).unwrap_err(), "invalid vault_id \" nope \": expected a ULID");
}

fn table(text: &str) -> toml::Table {
    text.parse::<toml::Table>().unwrap()
}

#[test]
fn write_setup_omits_a_server_it_was_not_given() {
    let req = SetupRequest { root_dir: "/n/all".into(), ..Default::default() };
    let text = Config::write_setup(&req).unwrap();
    assert!(!text.contains("server_url"), "standalone config should not name a server: {text}");
    assert_eq!(table(&text)["root_dir"].as_str(), Some("/n/all"));
    let req = SetupRequest {
        root_dir: "/n/all".into(),
        server_url: Some(" https://s ".into()),
        ca_cert: Some("  ".into()),
        ..Default::default()
    };
    let t = table(&Config::write_setup(&req).unwrap());
    assert_eq!(t.len(), 2);
    assert_eq!(t["server_url"].as_str(), Some("https://s"));
}

#[test]
fn set_server_adds_a_server_and_keeps_everything_else() {
    let text = Config::set_server(Some("root_dir = \"/n/all\"\nweb_dir = \"/w\"\n"), "https://notes.example.org", Some("/ca.pem"))
        .unwrap();
    let t = table(&text);
    assert_eq!(t["server_url"].as_str(), Some("https://notes.example.org"));
    assert_eq!(t["root_dir"].as_str(), Some("/n/all"), "the notes folder survived");
    assert_eq!(t["web_dir"].as_str(), Some("/w"), "so did everything else");
    assert_eq!(t["ca_cert"].as_str(), Some("/ca.pem"));

    // Changing servers replaces the key rather than appending a second one.
    let t = table(&Config::set_server(Some(&text), "https://other.example.org", None).unwrap());
    assert_eq!(t["server_url"].as_str(), Some("https://other.example.org"));
    assert_eq!(t["ca_cert"].as_str(), Some("/ca.pem"), "and leaves the CA alone");
    assert_eq!(Config::set_server(Some("root_dir = = 1"), "https://s", None), Err(ConfigFileError::NotToml));
}

#[test]
fn set_server_creates_the_file_when_there_is_none() {
    let t = table(&Config::set_server(None, "https://notes.example.org", None).unwrap());
    assert_eq!(t.len(), 1);
    assert_eq!(t["server_url"].as_str(), Some("https://notes.example.org"));
}

#[test]
fn setup_is_needed_only_when_nothing_names_a_folder() {
    let none = Settings::default();
    assert!(needs_setup(&none, &none, Some("/c.toml"), "/home/me").is_some());
    assert_eq!(needs_setup(&none, &none, Some("/c.toml"), "/home/me").unwrap().suggested_root_dir, "/home/me/lemmate");
    assert!(needs_setup(&none, &file(Some("/n/all"), None, Some("https://s")), Some("/c.toml"), "/h").is_none());
    assert!(needs_setup(&none, &file(None, Some("/n/one"), Some("https://s")), Some("/c.toml"), "/h").is_none());
    assert!(needs_setup(&none, &file(Some("/n/all"), None, None), Some("/c.toml"), "/h").is_none());
    assert!(needs_setup(&file(None, None, Some("https://s")), &none, Some("/c.toml"), "/h").is_none());
}

#[test]
fn the_port_anchor_is_the_folder() {
    assert_eq!(Layout::Root("/n".into()).anchor(), "/n");
    assert_eq!(Layout::Single { dir: "/d".into(), id: None }.anchor(), "/d");
}
