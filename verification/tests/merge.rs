use lemmate::ids::{NoteId, VaultId};
use lemmate::merge::{free_path, plan, rewrite_references, AttachmentFate, Survey};

fn survey(notes: &[&str], attachments: &[(&str, &str)]) -> Survey {
    Survey {
        notes: notes.iter().map(|p| (NoteId::new(), (*p).to_owned())).collect(),
        attachments: attachments.iter().map(|(p, h)| ((*p).to_owned(), (*h).to_owned())).collect(),
    }
}

#[test]
fn notes_land_under_the_folder_and_collisions_are_given_a_number() {
    let source = survey(&["Plan.md", "Daily/2026-09-03.md"], &[]);
    let dest = survey(&["Notes/Plan.md", "Other.md"], &[]);
    let p = plan(VaultId::new(), VaultId::new(), "Notes", &source, &dest);
    assert_eq!(p.notes[0].to, "Notes/Plan-2.md", "the destination already had that path");
    assert!(p.notes[0].renamed);
    assert_eq!(p.notes[1].to, "Notes/Daily/2026-09-03.md");
    assert!(!p.notes[1].renamed);
    assert_eq!(p.renamed_notes(), 1);
}

#[test]
fn merging_at_the_root_keeps_the_paths() {
    let source = survey(&["Plan.md"], &[]);
    let p = plan(VaultId::new(), VaultId::new(), "", &source, &survey(&[], &[]));
    assert_eq!(p.notes[0].to, "Plan.md");
    assert_eq!(p.folder, "");
}

#[test]
fn the_plan_does_not_collide_with_itself() {
    let source = survey(&["a/Plan.md", "b/Plan.md"], &[]);
    let dest = survey(&["Plan.md"], &[]);
    let p = plan(VaultId::new(), VaultId::new(), "", &source, &dest);
    let paths: Vec<&str> = p.notes.iter().map(|n| n.to.as_str()).collect();
    assert_eq!(paths, vec!["a/Plan.md", "b/Plan.md"], "different folders never collided");

    let source = survey(&["Plan.md", "Plan.md"], &[]);
    let p = plan(VaultId::new(), VaultId::new(), "", &source, &dest);
    assert_eq!(p.notes[0].to, "Plan-2.md");
    assert_eq!(p.notes[1].to, "Plan-3.md");
}

#[test]
fn attachments_are_new_identical_or_renamed() {
    let source = survey(
        &[],
        &[("attachments/new.png", "aaa"), ("attachments/same.png", "bbb"), ("attachments/clash.png", "ccc")],
    );
    let dest = survey(&[], &[("attachments/same.png", "bbb"), ("attachments/clash.png", "ddd")]);
    let p = plan(VaultId::new(), VaultId::new(), "Notes", &source, &dest);
    assert_eq!(p.attachments[0].fate, AttachmentFate::New);
    assert_eq!(p.attachments[0].to, "attachments/new.png", "attachments stay at the root");
    assert_eq!(p.attachments[1].fate, AttachmentFate::Same);
    assert_eq!(p.attachments[1].to, "attachments/same.png", "the same bytes are not copied twice");
    assert_eq!(p.attachments[2].fate, AttachmentFate::Renamed);
    assert_eq!(p.attachments[2].to, "attachments/clash-ccc.png");
    assert_eq!(
        p.attachment_rewrites(),
        vec![("attachments/clash.png".to_owned(), "attachments/clash-ccc.png".to_owned())]
    );
    assert_eq!(p.renamed_attachments(), 1);
}

#[test]
fn only_the_moved_references_are_rewritten() {
    let text = "\
# Plan

![shot](attachments/clash.png) and ![[clash.png]] and ![[clash.png|200]]
Unrelated: ![keep](attachments/new.png), and the word clash.png in prose.
";
    let out = rewrite_references(text, &[("attachments/clash.png".into(), "attachments/clash-ccc.png".into())]);
    assert!(out.contains("![shot](attachments/clash-ccc.png)"));
    assert!(out.contains("![[clash-ccc.png]]"));
    assert!(out.contains("![[clash-ccc.png|200]]"));
    assert!(out.contains("![keep](attachments/new.png)"), "untouched: {out}");
    assert!(out.contains("the word clash.png in prose"), "prose is not edited: {out}");
}

#[test]
fn extensions_survive_the_numbering() {
    let taken = vec!["a/b.tar.gz".to_owned()];
    assert_eq!(free_path("a/b.tar.gz", &taken), "a/b.tar-2.gz");
    let taken = vec!["no.ext/file".to_owned()];
    assert_eq!(free_path("no.ext/file", &taken), "no.ext/file-2");
}

#[test]
fn plans_name_both_vaults_and_trim_the_folder() {
    let from: VaultId = "01ARZ3NDEKTSV4RRFFQ69G5FAV".parse().unwrap();
    let into: VaultId = "01K5Z0000000000000000000AA".parse().unwrap();
    let p = plan(from, into, " /Notes/ ", &survey(&[], &[]), &survey(&[], &[]));
    assert_eq!(p.from, "01ARZ3NDEKTSV4RRFFQ69G5FAV");
    assert_eq!(p.into, "01K5Z0000000000000000000AA");
    assert_eq!(p.folder, "Notes");
    assert!(p.notes.is_empty() && p.attachments.is_empty());
}
