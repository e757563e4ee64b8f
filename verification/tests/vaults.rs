use lemmate::ids::VaultId;
use lemmate::merge::default_folder;
use lemmate::vaults::{default_folder_name, folder_name_for, plan, VaultFolder};

#[test]
fn folder_names_are_safe_and_fall_back_to_the_id() {
    let id: VaultId = "01ARZ3NDEKTSV4RRFFQ69G5FAV".parse().unwrap();
    assert_eq!(default_folder_name(id), "vault-9G5FAV");
    assert_eq!(folder_name_for("Work"), Some("Work".into()));
    assert_eq!(folder_name_for("Work/2026"), Some("Work-2026".into()));
    assert_eq!(folder_name_for("  spaced  "), Some("spaced".into()));
    assert_eq!(folder_name_for(".hidden"), Some("hidden".into()));
    assert_eq!(folder_name_for("   "), None);
    assert_eq!(folder_name_for("..."), None);
    assert_eq!(folder_name_for(&"x".repeat(200)).unwrap().chars().count(), 64);
}

#[test]
fn the_merge_folder_defaults_to_the_name_or_the_id() {
    let id: VaultId = "01ARZ3NDEKTSV4RRFFQ69G5FAV".parse().unwrap();
    assert_eq!(default_folder(Some("Work/2026"), id), "Work-2026");
    assert_eq!(default_folder(Some("..."), id), "vault-9G5FAV");
    assert_eq!(default_folder(None, id), "vault-9G5FAV");
}

#[test]
fn a_first_run_with_nothing_anywhere_plans_one_vault() {
    let p = plan("/home/u/Lemmate", Vec::new(), &[], &[]);
    assert_eq!(p, vec![VaultFolder { dir: "/home/u/Lemmate/notes".into(), id: None }]);
}

#[test]
fn remote_vaults_get_a_folder_each_and_known_ones_are_left_alone() {
    let a: VaultId = "01ARZ3NDEKTSV4RRFFQ69G5FAV".parse().unwrap();
    let b: VaultId = "01K5Z0000000000000000000AA".parse().unwrap();
    let mine = VaultFolder { dir: "/r/My notes".into(), id: Some(a) };
    let p = plan("/r", vec![mine.clone()], &["/r/vault-0000AA".to_owned()], &[a, b]);
    assert_eq!(p.len(), 2, "the known vault keeps its folder, the new one gets its own");
    assert_eq!(p[0], mine);
    assert_eq!(p[1], VaultFolder { dir: "/r/vault-0000AA-2".into(), id: Some(b) });
}
