use doclink::chars::chars_of;
use doclink::classify::{DeclKind, Flavour, Linked, RawLine};
use doclink::tables::{always_link, registrable_ident, stopword};

fn line(text: &str) -> RawLine {
    let mut l = RawLine {
        line_num: 0,
        all_linked: Linked::Unprocessed,
        contents: text.to_string(),
        flavour: Flavour::Plain,
        idents: Vec::new(),
        source_file: "test.rs".to_string(),
    };
    l.find_docs();
    l.find_idents();
    l
}

#[test]
fn doc_sigil_after_leading_whitespace() {
    assert_eq!(line("/// plain docs").flavour, Flavour::DocComment);
    assert_eq!(line("    /// indented docs").flavour, Flavour::DocComment);
    assert_eq!(line("///no gap").flavour, Flavour::DocComment);
    assert_eq!(line("// ordinary comment").flavour, Flavour::Plain);
    assert_eq!(line("").flavour, Flavour::Plain);
}

#[test]
fn doc_lines_never_contribute_identifiers() {
    let l = line("/// fn hidden and struct Secret");
    assert_eq!(l.flavour, Flavour::DocComment);
    assert!(l.idents.is_empty());
}

#[test]
fn declaration_kinds_capture_their_names() {
    let l = line("pub fn alpha() {}");
    assert_eq!(l.flavour, Flavour::Declaration(DeclKind::Function));
    assert_eq!(l.idents, vec!["alpha".to_string()]);

    let l = line("pub struct Widget {");
    assert_eq!(l.flavour, Flavour::Declaration(DeclKind::Struct));
    assert_eq!(l.idents, vec!["Widget".to_string()]);

    let l = line("enum Colour {");
    assert_eq!(l.flavour, Flavour::Declaration(DeclKind::Enum));
    assert_eq!(l.idents, vec!["Colour".to_string()]);

    let l = line("trait Paint {");
    assert_eq!(l.flavour, Flavour::Declaration(DeclKind::Trait));
    assert_eq!(l.idents, vec!["Paint".to_string()]);

    let l = line("type Alias = u8;");
    assert_eq!(l.flavour, Flavour::Declaration(DeclKind::Type));
    assert_eq!(l.idents, vec!["Alias".to_string()]);
}

#[test]
fn use_line_keeps_all_captures_but_last_kind_wins() {
    let l = line("use foo::bar;");
    assert_eq!(l.flavour, Flavour::Declaration(DeclKind::Import));
    assert_eq!(l.idents, vec!["foo".to_string(), "bar;".to_string()]);
}

#[test]
fn keyword_matches_inside_words_by_design() {
    let l = line("because xyz happens");
    assert_eq!(l.flavour, Flavour::Declaration(DeclKind::Use));
    assert_eq!(l.idents, vec!["xyz".to_string()]);
}

#[test]
fn short_and_stopword_captures_are_dropped() {
    assert!(line("fn ab() {}").idents.is_empty());
    assert!(line("fn path() {}").idents.is_empty());
    assert!(line("struct Self {}").idents.is_empty());
    assert_eq!(line("fn abc() {}").idents, vec!["abc".to_string()]);
}

#[test]
fn stopword_table_membership() {
    for w in ["log", "std", "core", "super", "io", "crate", "to", "path", "for", "from",
        "into", "that", "we", "so", "of", "new", "file", "self", "Self"] {
        let v = chars_of(w);
        assert!(stopword(v.as_slice()), "{} should be a stopword", w);
    }
    let v = chars_of("Widget");
    assert!(!stopword(v.as_slice()));
    let v = chars_of("Std");
    assert!(!stopword(v.as_slice()));
}

#[test]
fn registrable_needs_three_characters_and_no_stopword() {
    assert!(!registrable_ident(chars_of("").as_slice()));
    assert!(!registrable_ident(chars_of("ab").as_slice()));
    assert!(!registrable_ident(chars_of("path").as_slice()));
    assert!(registrable_ident(chars_of("abc").as_slice()));
    assert!(registrable_ident(chars_of("bar;").as_slice()));
}

#[test]
fn always_link_table_membership() {
    for w in ["usize", "()", "&str", "f64", "n", "Result"] {
        assert!(always_link(chars_of(w).as_slice()), "{} should be in the always set", w);
    }
    assert!(!always_link(chars_of("Widget").as_slice()));
    assert!(!always_link(chars_of("crate").as_slice()));
}

#[test]
fn multiple_matches_on_one_line_all_captured() {
    let l = line("fn first() { fn second() {} }");
    assert_eq!(l.flavour, Flavour::Declaration(DeclKind::Function));
    assert_eq!(l.idents, vec!["first".to_string(), "second".to_string()]);
}
