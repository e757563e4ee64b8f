use lemmate::local::{
    merge_begin, merge_opening, merge_step, MergeAction, MergeEvent, MergeOpening, MergeStage,
    attachments_to_copy, connect_refusal, merge_folder, merge_vaults_of, relay_mode, setup_answer, stable_port,
    ConnectRequest, MergeRequest, SetupRequest,
};
use lemmate::ids::VaultId;
use lemmate::merge::{AttachmentFate, MergePlan, PlannedAttachment, PlannedNote};

#[test]
fn stable_port_is_the_same_every_time_and_differs_per_vault() {
    let a = "/home/me/notes";
    let b = "/home/me/work";
    assert_eq!(stable_port(a), stable_port(a), "the whole point is that it does not move");
    assert_ne!(stable_port(a), stable_port(b), "two vaults must not fight over one port");
    for p in [a, b, ""] {
        assert!(stable_port(p) >= 49152, "must land in the dynamic range, got {}", stable_port(p));
    }
}

#[test]
fn stable_port_derivation_is_pinned() {
    assert_eq!(stable_port("/nonexistent-vault-for-tests"), 54678);
}

#[test]
fn the_setup_form_needs_a_folder_and_a_real_server_if_any() {
    let mut req = SetupRequest { root_dir: "/home/me/notes".into(), ..Default::default() };
    assert_eq!(setup_answer(&req, false), 202);
    assert_eq!(setup_answer(&req, true), 409);
    req.server_url = Some("  ".into());
    assert_eq!(setup_answer(&req, false), 202);
    req.server_url = Some("notes.example.org".into());
    assert_eq!(setup_answer(&req, false), 400);
    req.server_url = Some(" https://notes.example.org ".into());
    assert_eq!(setup_answer(&req, false), 202);
    req.root_dir = "   ".into();
    assert_eq!(setup_answer(&req, false), 400);
    assert_eq!(relay_mode(true), "synced");
    assert_eq!(relay_mode(false), "local");
}

#[test]
fn connecting_needs_a_url_and_somewhere_to_write_it() {
    let req = ConnectRequest { server_url: "ftp://x".into(), ..Default::default() };
    assert_eq!(connect_refusal(&req, true).map(|r| r.0), Some(400));
    let req = ConnectRequest { server_url: " http://x ".into(), ..Default::default() };
    assert_eq!(connect_refusal(&req, false).map(|r| r.0), Some(501));
    assert_eq!(connect_refusal(&req, true), None);
}

#[test]
fn a_merge_names_two_different_vaults() {
    let a = VaultId(1).to_string();
    let b = VaultId(2).to_string();
    let req = MergeRequest { from: "x".into(), into: b.clone(), ..Default::default() };
    assert_eq!(merge_vaults_of(&req).unwrap_err().1, "`from` is not a vault id");
    let req = MergeRequest { from: a.clone(), into: "y".into(), ..Default::default() };
    assert_eq!(merge_vaults_of(&req).unwrap_err().1, "`into` is not a vault id");
    let req = MergeRequest { from: a.clone(), into: a.clone(), ..Default::default() };
    assert_eq!(merge_vaults_of(&req).unwrap_err(), (400, "a vault cannot be merged into itself"));
    let req = MergeRequest { from: a.clone(), into: b.clone(), folder: Some(String::new()), dry_run: true };
    assert_eq!(merge_vaults_of(&req).unwrap(), (VaultId(1), VaultId(2)));
    assert_eq!(merge_folder(&req, Some("Work"), VaultId(1)), "");
}

#[test]
fn only_attachments_the_destination_lacks_are_copied() {
    let att = |p: &str, fate| PlannedAttachment { from: p.into(), to: p.into(), hash: "h".into(), fate };
    let plan = MergePlan {
        from: "a".into(),
        into: "b".into(),
        folder: String::new(),
        notes: vec![],
        attachments: vec![att("x.png", AttachmentFate::Same), att("y.png", AttachmentFate::New), att("z.png", AttachmentFate::Renamed)],
    };
    assert_eq!(attachments_to_copy(&plan), vec![1, 2]);
}

fn two_step_plan() -> MergePlan {
    MergePlan {
        from: "a".into(),
        into: "b".into(),
        folder: "A".into(),
        notes: vec![PlannedNote { id: "01N".into(), from: "n.md".into(), to: "A/n.md".into(), renamed: false }],
        attachments: vec![
            PlannedAttachment { from: "same.png".into(), to: "A/same.png".into(), hash: "h0".into(), fate: AttachmentFate::Same },
            PlannedAttachment { from: "x.png".into(), to: "A/x-2.png".into(), hash: "h1".into(), fate: AttachmentFate::Renamed },
        ],
    }
}

#[test]
fn a_merge_copies_attachments_then_rewritten_notes_then_retires() {
    let plan = two_step_plan();
    let (stage, action) = merge_begin(&plan);
    assert_eq!(stage, MergeStage::ReadAttachment(0));
    assert!(matches!(action, MergeAction::ReadFile(p) if p == "x.png"));
    let (stage, action) = merge_step(&plan, stage, MergeEvent::Read(Some(vec![1, 2])));
    assert_eq!(stage, MergeStage::WriteAttachment(0));
    assert!(matches!(action, MergeAction::WriteFile { path, bytes } if path == "A/x-2.png" && bytes == vec![1, 2]));
    let (stage, action) = merge_step(&plan, stage, MergeEvent::Wrote(None));
    assert_eq!(stage, MergeStage::ReadNote(0));
    assert!(matches!(action, MergeAction::ReadFile(p) if p == "n.md"));
    let (stage, action) = merge_step(&plan, stage, MergeEvent::Read(Some(b"![](x.png)\n".to_vec())));
    assert_eq!(stage, MergeStage::WriteNote(0));
    match action {
        MergeAction::WriteFile { path, bytes } => {
            assert_eq!(path, "A/n.md");
            assert!(String::from_utf8(bytes).unwrap().contains("x-2.png"));
        }
        _ => panic!("a note is written"),
    }
    let (stage, action) = merge_step(&plan, stage, MergeEvent::Wrote(None));
    assert_eq!(stage, MergeStage::Retire);
    assert!(matches!(action, MergeAction::Retire));
    let (_, action) = merge_step(&plan, stage, MergeEvent::Retired { left: vec![], folder_removed: true });
    assert!(matches!(action, MergeAction::Done { left, folder_removed: true } if left.is_empty()));
}

#[test]
fn a_merge_skips_a_missing_attachment_and_stops_on_conflicts_and_binary_notes() {
    let plan = two_step_plan();
    let (stage, action) = merge_step(&plan, MergeStage::ReadAttachment(0), MergeEvent::Read(None));
    assert_eq!(stage, MergeStage::ReadNote(0));
    assert!(matches!(action, MergeAction::ReadFile(p) if p == "n.md"));
    let (_, action) = merge_step(&plan, MergeStage::WriteNote(0), MergeEvent::Wrote(Some("A/n.md".into())));
    assert!(matches!(action, MergeAction::Fail(409, m) if m == "A/n.md already exists in the destination"));
    let (_, action) = merge_step(&plan, MergeStage::ReadNote(0), MergeEvent::Read(Some(vec![0xff, 0xfe])));
    assert!(matches!(action, MergeAction::Fail(500, m) if m == "n.md is not text"));
    let (_, action) = merge_step(&plan, MergeStage::ReadNote(0), MergeEvent::Read(None));
    assert!(matches!(action, MergeAction::Fail(500, m) if m == "n.md could not be read"));
    assert!(matches!(merge_opening(Some("busy".into()), false), MergeOpening::Refuse(409, m) if m == "busy"));
    assert!(matches!(merge_opening(None, true), MergeOpening::DryRun));
    assert!(matches!(merge_opening(None, false), MergeOpening::Apply));
}
