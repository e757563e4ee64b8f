use lemmate::export::{archive_order, ExportReport};

fn owned(v: &[&str]) -> Vec<String> {
    v.iter().map(|s| s.to_string()).collect()
}

#[test]
fn entries_are_sorted_and_each_listed_once() {
    let got = archive_order(owned(&["a/img.png", "Root.md", "a/Nested.qmd", "Root.md"]));
    assert_eq!(got, owned(&["Root.md", "a/Nested.qmd", "a/img.png"]));
}

#[test]
fn ordering_does_not_depend_on_the_walk() {
    let one = archive_order(owned(&["two/Two.md", "One.md"]));
    let two = archive_order(owned(&["One.md", "two/Two.md"]));
    assert_eq!(one, two);
    assert!(archive_order(Vec::new()).is_empty());
}

#[test]
fn a_report_counts_files_and_bytes() {
    let mut r = ExportReport::default();
    assert_eq!(r.message(), "exported 0 files (0 bytes uncompressed)");
    r.record(7);
    assert_eq!(r.message(), "exported 1 file (7 bytes uncompressed)");
    r.record(9);
    assert_eq!((r.files, r.bytes), (2, 16));
    assert_eq!(r.message(), "exported 2 files (16 bytes uncompressed)");
}
