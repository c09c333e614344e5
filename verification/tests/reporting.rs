use doclink::report::ReportCard;
use doclink::source::SourceTree;
use doclink::watch::FileInfo;

fn strings(v: &[&str]) -> Vec<String> {
    v.iter().map(|s| s.to_string()).collect()
}

#[test]
fn report_counts_split_public_and_private() {
    let files = vec![(
        "r.rs".to_string(),
        strings(&[
            "pub fn alpha() {}",
            "fn beta() {}",
            "fn gamma() {}",
            "struct Inner {}",
            "pub struct Outer {}",
            "enum Shade {}",
            "/// docs do not count",
            "plain prose",
        ]),
    )];
    let st = SourceTree::new_from_paths(&files);
    let rc = ReportCard::from_source_tree(st);
    assert_eq!(rc.num_pub_funcs, 1);
    assert_eq!(rc.num_funcs, 2);
    assert_eq!(rc.num_structs, 1);
    assert_eq!(rc.num_pub_structs, 1);
    assert_eq!(rc.num_enums, 1);
    assert_eq!(rc.num_pub_enums, 0);
    assert_eq!(rc.num_macros, 0);
    assert_eq!(rc.source_files.len(), 1);
    assert!(rc.named_idents.is_empty());
}

#[test]
fn public_trait_counts_toward_public_types() {
    let files = vec![(
        "t.rs".to_string(),
        strings(&["pub trait Paint {}", "trait Brush {}"]),
    )];
    let st = SourceTree::new_from_paths(&files);
    let rc = ReportCard::from_source_tree(st);
    assert_eq!(rc.num_pub_types, 1);
    assert_eq!(rc.num_pub_traits, 0);
    assert_eq!(rc.num_traits, 1);
}

#[test]
fn file_info_refresh_takes_new_timestamps() {
    let fi = FileInfo {
        file: "watched.rs".to_string(),
        ctime: None,
        now: 1_000,
        mtime: 900,
        last_checked: 1_000,
    };
    let fi = fi.refresh(Some(50), 2_000, 3_000);
    assert_eq!(fi.file, "watched.rs");
    assert_eq!(fi.ctime, Some(50));
    assert_eq!(fi.mtime, 2_000);
    assert_eq!(fi.now, 3_000);
    assert_eq!(fi.last_checked, 3_000);
}

#[test]
fn should_process_needs_mtime_past_tolerance() {
    let base = FileInfo {
        file: "watched.rs".to_string(),
        ctime: None,
        now: 0,
        mtime: 0,
        last_checked: 1_000,
    };
    let newer = FileInfo { mtime: 1_011, ..base.clone() };
    assert!(newer.should_process());
    let barely = FileInfo { mtime: 1_010, ..base.clone() };
    assert!(!barely.should_process());
    let older = FileInfo { mtime: 900, ..base };
    assert!(!older.should_process());
}
