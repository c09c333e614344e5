use doclink::rewrite::apply_idents;
use doclink::source::{RawSourceCode, SourceTree};

fn strings(v: &[&str]) -> Vec<String> {
    v.iter().map(|s| s.to_string()).collect()
}

#[test]
fn fix_links_mention_and_leaves_declaration_alone() {
    let files = vec![
        ("a.rs".to_string(), strings(&["struct Foo {}"])),
        ("b.rs".to_string(), strings(&["/// A Foo in use."])),
    ];
    let st = SourceTree::new_from_paths(&files);
    assert_eq!(st.named_idents, strings(&["Foo"]));

    let changes_a = st.source_files[0].make_adjustments(&st.named_idents);
    assert!(changes_a.is_empty());
    let out_a = st.source_files[0].materialize(&changes_a);
    assert_eq!(out_a, strings(&["struct Foo {}"]));

    let changes_b = st.source_files[1].make_adjustments(&st.named_idents);
    assert_eq!(changes_b.len(), 1);
    assert_eq!(changes_b[0].line_num, 0);
    let out_b = st.source_files[1].materialize(&changes_b);
    assert_eq!(out_b, strings(&["/// A [`Foo`] in use."]));
}

#[test]
fn backtick_wrapped_mention_is_left_alone() {
    let unit = RawSourceCode::new_from_file(
        &"d.rs".to_string(),
        &strings(&["/// the `Foo` type is handled"]),
    );
    let ids = strings(&["Foo"]);
    let changes = unit.make_adjustments(&ids);
    assert!(changes.is_empty());
    let out = unit.materialize(&changes);
    assert_eq!(out, strings(&["/// the `Foo` type is handled"]));
}

#[test]
fn plural_suffix_mention_is_linked_whole_token() {
    let unit = RawSourceCode::new_from_file(
        &"e.rs".to_string(),
        &strings(&["/// See Foos for details."]),
    );
    let ids = strings(&["Foo"]);
    let changes = unit.make_adjustments(&ids);
    assert_eq!(changes.len(), 1);
    let out = unit.materialize(&changes);
    assert_eq!(out, strings(&["/// See [`Foo`] for details."]));
}

#[test]
fn unreadable_file_contributes_empty_unit_and_rest_proceeds() {
    let files = vec![
        ("bad.rs".to_string(), Vec::<String>::new()),
        (
            "good.rs".to_string(),
            strings(&["struct Foo {}", "/// Foo rules."]),
        ),
    ];
    let st = SourceTree::new_from_paths(&files);
    assert_eq!(st.source_files[0].total_lines, 0);
    assert_eq!(st.named_idents, strings(&["Foo"]));

    let changes = st.source_files[1].make_adjustments(&st.named_idents);
    let out = st.source_files[1].materialize(&changes);
    assert_eq!(out, strings(&["struct Foo {}", "/// [`Foo`] rules."]));

    let none = st.source_files[0].make_adjustments(&st.named_idents);
    let empty = st.source_files[0].materialize(&none);
    assert!(empty.is_empty());
}

#[test]
fn rewriting_twice_changes_nothing_more() {
    let files = vec![
        ("a.rs".to_string(), strings(&["struct Foo {}"])),
        (
            "b.rs".to_string(),
            strings(&["/// A Foo in use.", "/// Plain prose here.", "fn tool() {}"]),
        ),
    ];
    let st = SourceTree::new_from_paths(&files);
    let mut first: Vec<(String, Vec<String>)> = Vec::new();
    for unit in &st.source_files {
        let changes = unit.make_adjustments(&st.named_idents);
        first.push((unit.file.clone(), unit.materialize(&changes)));
    }
    let st2 = SourceTree::new_from_paths(&first);
    assert_eq!(st2.named_idents, st.named_idents);
    for (i, unit) in st2.source_files.iter().enumerate() {
        let changes = unit.make_adjustments(&st2.named_idents);
        assert!(changes.is_empty(), "second pass touched {}", unit.file);
        assert_eq!(unit.materialize(&changes), first[i].1);
    }
}

#[test]
fn line_count_is_preserved_through_materialization() {
    let lines = strings(&[
        "struct Foo {}",
        "",
        "/// Foo one.",
        "/// Foo two.",
        "fn main() {}",
    ]);
    let unit = RawSourceCode::new_from_file(&"f.rs".to_string(), &lines);
    assert_eq!(unit.total_lines, 5);
    let ids = strings(&["Foo"]);
    let changes = unit.make_adjustments(&ids);
    assert_eq!(changes.len(), 2);
    let out = unit.materialize(&changes);
    assert_eq!(out.len(), 5);
    assert_eq!(out[0], "struct Foo {}");
    assert_eq!(out[1], "");
    assert_eq!(out[4], "fn main() {}");
}

#[test]
fn stopword_and_short_names_never_registered_or_linked() {
    let files = vec![
        (
            "s.rs".to_string(),
            strings(&["fn path() {}", "fn ab() {}", "struct Widget {}"]),
        ),
        (
            "t.rs".to_string(),
            strings(&["/// the path of ab and Widget things"]),
        ),
    ];
    let st = SourceTree::new_from_paths(&files);
    assert_eq!(st.named_idents, strings(&["Widget"]));
    let changes = st.source_files[1].make_adjustments(&st.named_idents);
    let out = st.source_files[1].materialize(&changes);
    assert_eq!(out, strings(&["/// the path of ab and [`Widget`] things"]));
}

#[test]
fn identifiers_chain_in_registry_order() {
    let text = "/// Foods".to_string();
    let out = apply_idents(&text, &strings(&["Foods", "Foo"]));
    assert_eq!(out, "/// [`Foo`]");
    let out_single = apply_idents(&text, &strings(&["Foods"]));
    assert_eq!(out_single, "/// [`Foods`]");
}

#[test]
fn registry_merges_units_first_seen_first() {
    let files = vec![
        ("m.rs".to_string(), strings(&["fn alpha() {}", "fn beta() {}"])),
        ("n.rs".to_string(), strings(&["fn beta() {}", "fn gamma() {}"])),
    ];
    let st = SourceTree::new_from_paths(&files);
    assert_eq!(st.named_idents, strings(&["alpha", "beta", "gamma"]));
}
