use doclink::classify::{Flavour, Linked, RawLine};
use doclink::cli::{Cli, Commands};
use doclink::rewrite::AdjustedLine;
use doclink::source::{RawSourceCode, SourceTree};

fn strings(v: &[&str]) -> Vec<String> {
    v.iter().map(|s| s.to_string()).collect()
}

fn doc_line(text: &str) -> RawLine {
    let mut l = RawLine {
        line_num: 7,
        all_linked: Linked::Unprocessed,
        contents: text.to_string(),
        flavour: Flavour::Plain,
        idents: Vec::new(),
        source_file: "engine.rs".to_string(),
    };
    l.find_docs();
    l
}

#[test]
fn find_docs_tags_only_doc_lines() {
    assert_eq!(doc_line("/// docs").flavour, Flavour::DocComment);
    assert_eq!(doc_line("fn plain() {}").flavour, Flavour::Plain);
}

#[test]
fn should_be_modified_needs_doc_flavour_mention_and_no_guard() {
    let ids = strings(&["Widget"]);
    assert!(doc_line("/// a Widget appears").should_be_modified(&ids));
    assert!(doc_line("/// Widgets appear").should_be_modified(&ids));
    assert!(!doc_line("/// nothing to see").should_be_modified(&ids));
    assert!(!doc_line("/// a `Widget` appears").should_be_modified(&ids));
    let mut plain = doc_line("let w: Widget;");
    plain.find_idents();
    assert!(!plain.should_be_modified(&ids));
}

#[test]
fn process_changes_rewrites_only_matching_tokens() {
    let ids = strings(&["Widget"]);
    let mut l = doc_line("///  a  Widget,  spaced  oddly");
    l.process_changes(&ids);
    assert_eq!(l.contents, "///  a  [`Widget`]  spaced  oddly");
    assert_eq!(l.line_num, 7);
    assert_eq!(l.flavour, Flavour::DocComment);
}

#[test]
fn pub_or_private_looks_for_pub_anywhere() {
    assert!(doc_line("pub fn alpha() {}").pub_or_private());
    assert!(!doc_line("fn alpha() {}").pub_or_private());
}

#[test]
fn adjusted_line_keeps_number_text_and_file() {
    let l = doc_line("/// kept as is");
    let adj = AdjustedLine::from(l);
    assert_eq!(adj.line_num, 7);
    assert_eq!(adj.contents, "/// kept as is");
    assert_eq!(adj.source_file, "engine.rs");
}

#[test]
fn default_cli_is_a_quiet_report_over_default_paths() {
    let cli = Cli::default();
    assert!(!cli.quiet);
    assert!(!cli.debug);
    assert!(matches!(cli.command, Commands::Report { path: None }));
}

#[test]
fn populate_idents_reapplies_the_registry_filter() {
    let unit_a = RawSourceCode::new_from_file(
        &"a.rs".to_string(),
        &strings(&["struct Alpha {}", "struct Beta {}"]),
    );
    let unit_b = RawSourceCode::new_from_file(&"b.rs".to_string(), &strings(&["struct Alpha {}"]));
    let st = SourceTree { source_files: vec![unit_a, unit_b], named_idents: Vec::new() };
    let st = st.populate_idents();
    assert_eq!(st.named_idents, strings(&["Alpha", "Beta"]));
}

#[test]
fn materialize_falls_back_to_originals_without_adjustments() {
    let unit = RawSourceCode::new_from_file(
        &"c.rs".to_string(),
        &strings(&["/// one", "two", "/// three"]),
    );
    let out = unit.materialize(&Vec::new());
    assert_eq!(out, strings(&["/// one", "two", "/// three"]));
}
