use lemmate::store::{prune_cutoff, snapshot_due, Maintenance, RetentionPolicy, Role, SearchQuery};

#[test]
fn roles_read_back_from_their_names() {
    for r in [Role::Viewer, Role::Editor, Role::Owner] {
        assert_eq!(Role::parse(r.as_str()), Some(r));
    }
    assert_eq!(Role::parse("Owner"), None);
    assert_eq!(Role::parse(""), None);
    assert!(Role::Owner.includes(Role::Editor));
    assert!(Role::Editor.includes(Role::Editor));
    assert!(!Role::Viewer.includes(Role::Editor));
    assert!(Role::Viewer < Role::Owner);
}

#[test]
fn queries_split_into_text_and_filters() {
    let q = SearchQuery::parse("  alpha tag:#Work/Plans/ path:/Projects has:MATH  beta ");
    assert_eq!(q.text, "alpha beta");
    assert_eq!(q.tags, vec!["work/plans".to_owned()]);
    assert_eq!(q.paths, vec!["Projects".to_owned()]);
    assert_eq!(q.has, vec!["math".to_owned()]);
    assert_eq!(SearchQuery::parse(""), SearchQuery::default());
    assert_eq!(SearchQuery::parse("tag:ÜBER").tags, vec!["über".to_owned()]);
}

#[test]
fn snapshots_come_by_count_or_by_age() {
    let p = RetentionPolicy::default();
    assert_eq!(p.snapshot_every_updates, 500);
    assert!(!snapshot_due(0, Some(0), 10_000_000, &p));
    assert!(snapshot_due(500, None, 0, &p));
    assert!(!snapshot_due(499, Some(1_000), 1_000 + 599_999, &p));
    assert!(snapshot_due(1, Some(1_000), 1_000 + 600_000, &p));
    assert_eq!(prune_cutoff(8_000_000_000, &p), 8_000_000_000 - 7_776_000_000);
    assert_eq!(Maintenance::default(), Maintenance { snapshotted: false, pruned_updates: 0, pruned_snapshots: 0 });
}
