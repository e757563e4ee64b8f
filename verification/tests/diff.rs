use lemmate::diff::{apply_ops, diff_covers, ops_from_diff, text_ops, try_text_ops, CharDiff, TextOp};

fn check(old: &str, new: &str) {
    let ops = text_ops(old, new);
    assert_eq!(apply_ops(old, &ops), new, "ops: {ops:?}");
}

#[test]
fn round_trips() {
    check("", "hello");
    check("hello", "");
    check("hello world", "hello brave new world");
    check("abc", "axc");
    check("line one\nline two\n", "line one\nline 2\nline three\n");
    check("héllo wörld", "hello world");
    check("日本語のテキスト", "日本語の新しいテキスト!");
    check("emoji 😀 here", "emoji 😀😀 there");
    check("same", "same");
}

#[test]
fn identical_text_yields_no_ops() {
    assert!(text_ops("x", "x").is_empty());
}

#[test]
fn edits_are_byte_offsets_into_the_current_text() {
    let ops = vec![
        TextOp::Delete { at: 1, len: 2 },
        TextOp::Insert { at: 1, text: "ö".into() },
        TextOp::Insert { at: 3, text: "!".into() },
    ];
    assert_eq!(apply_ops("héllo", &ops), "hö!llo");
}

#[test]
fn a_diff_becomes_edits_where_the_new_text_has_come_to() {
    let diff = [
        CharDiff::Equal { old_index: 0, new_index: 0, len: 1 },
        CharDiff::Replace { old_index: 1, old_len: 1, new_index: 1, new_len: 2 },
        CharDiff::Equal { old_index: 2, new_index: 3, len: 1 },
        CharDiff::Delete { old_index: 3, old_len: 1, new_index: 4 },
    ];
    let old: Vec<char> = "aéc!".chars().collect();
    let new: Vec<char> = "axyc".chars().collect();
    assert!(diff_covers(&diff, &old, &new));
    let ops = ops_from_diff("aéc!", "axyc", &diff);
    assert_eq!(
        ops,
        vec![
            TextOp::Delete { at: 1, len: 2 },
            TextOp::Insert { at: 1, text: "xy".into() },
            TextOp::Delete { at: 4, len: 1 },
        ]
    );
    assert_eq!(apply_ops("aéc!", &ops), "axyc");
}

#[test]
fn a_diff_that_skips_text_does_not_cover() {
    let old: Vec<char> = "abc".chars().collect();
    let new: Vec<char> = "abc".chars().collect();
    assert!(!diff_covers(&[CharDiff::Equal { old_index: 0, new_index: 0, len: 2 }], &old, &new));
    assert!(!diff_covers(&[CharDiff::Equal { old_index: 1, new_index: 1, len: 2 }], &old, &new));
    assert!(diff_covers(&[CharDiff::Equal { old_index: 0, new_index: 0, len: 3 }], &old, &new));
}

#[test]
fn the_library_diff_covers_what_it_diffs() {
    let ops = try_text_ops("kettle on", "kettle off").expect("similar's diff covers both texts");
    assert!(!ops.is_empty());
    assert_eq!(apply_ops("kettle on", &ops), "kettle off");
    assert_eq!(try_text_ops("same", "same"), Some(Vec::new()));
}
