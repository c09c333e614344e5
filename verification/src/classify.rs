//! The line classifier.
//!
//! Each raw source line gets a flavour: a documentation comment, a
//! declaration of some kind, or plain text. Declaration lines also yield
//! the candidate identifier names they declare, filtered through the
//! stopword and minimum-length rules before they may enter any registry.
//!
//! A declaration pattern is a keyword followed by exactly one whitespace
//! character and then a (possibly empty) identifier-character run; the
//! import pattern is a `::` followed by an identifier-character run and a
//! terminating semicolon, which stays part of the captured name. Patterns
//! are applied in a fixed priority order; every pattern that matches
//! contributes its captured names, while the flavour keeps only the last
//! kind that matched.
use vstd::prelude::*;
use crate::chars::{
    capture_shaped, chars_of, contains_at, copy_range, ident_shaped, is_space_char, is_word_char,
    lemma_capture_ident_shaped, lemma_prefix_run, lemma_prefix_run_props, matches_at, prefix_run,
    space_char, space_pred, string_of, word_char, word_chars, word_pred,
};
use crate::tables::registrable;
use crate::tables::registrable_ident;

verus! {

/// How far the rewrite engine has taken a line through its passes.
#[derive(Clone, Copy, Debug, PartialEq, Eq, Structural)]
pub enum Linked {
    Complete,
    Loaded,
    Partial,
    Irrelevant,
    Unprocessed,
}

/// The kinds of declaration a line can introduce.
#[derive(Clone, Copy, Debug, PartialEq, Eq, Structural)]
pub enum DeclKind {
    Function,
    Type,
    Enum,
    Struct,
    Trait,
    Use,
    Import,
}

/// What a line is: a doc comment, a declaration of some kind, or plain
/// text that is neither.
#[derive(Clone, Copy, Debug, PartialEq, Eq, Structural)]
pub enum Flavour {
    DocComment,
    Declaration(DeclKind),
    Plain,
}

/// A doc-comment line: its content begins, after leading whitespace, with
/// the `///` sigil.
pub open spec fn spec_is_doc_line(s: Seq<char>) -> bool {
    let t = s.skip(prefix_run(s, space_pred()) as int);
    t.len() >= 3 && t[0] == '/' && t[1] == '/' && t[2] == '/'
}

/// The declaration keyword pattern matches at `i`: the keyword occurs
/// there, followed by exactly one whitespace character.
pub open spec fn kw_match_at(s: Seq<char>, kw: Seq<char>, i: int) -> bool {
    &&& contains_at(s, i, kw)
    &&& i + kw.len() < s.len()
    &&& is_space_char(s[i + kw.len()])
}

/// All names the keyword pattern captures in `s` at or after `from`,
/// scanning left to right without overlap: each match captures the
/// identifier-character run that follows its single whitespace.
pub open spec fn keyword_captures_from(s: Seq<char>, kw: Seq<char>, from: int) -> Seq<Seq<char>>
    decreases s.len() - from,
{
    if from < 0 || from >= s.len() {
        seq![]
    } else if kw_match_at(s, kw, from) {
        let cap_start = from + kw.len() + 1;
        let caplen = prefix_run(s.skip(cap_start), word_pred()) as int;
        let next = if cap_start + caplen <= s.len() {
            cap_start + caplen
        } else {
            s.len() as int
        };
        seq![s.subrange(cap_start, next)] + keyword_captures_from(s, kw, next)
    } else {
        keyword_captures_from(s, kw, from + 1)
    }
}

/// The import pattern matches at `i`: a `::`, an identifier-character run,
/// then a semicolon.
pub open spec fn import_match_at(s: Seq<char>, i: int) -> bool {
    let run = prefix_run(s.skip(i + 2), word_pred()) as int;
    &&& contains_at(s, i, seq![':', ':'])
    &&& i + 2 + run < s.len()
    &&& s[i + 2 + run] == ';'
}

/// All names the import pattern captures in `s` at or after `from`; the
/// terminating semicolon stays part of the captured name.
pub open spec fn import_captures_from(s: Seq<char>, from: int) -> Seq<Seq<char>>
    decreases s.len() - from,
{
    if from < 0 || from >= s.len() {
        seq![]
    } else if import_match_at(s, from) {
        let run = prefix_run(s.skip(from + 2), word_pred()) as int;
        let next = from + 2 + run + 1;
        seq![s.subrange(from + 2, next)] + import_captures_from(s, next)
    } else {
        import_captures_from(s, from + 1)
    }
}

/// The keyword that introduces each declaration kind; the import kind has
/// no keyword and is handled by its own pattern.
pub open spec fn kind_keyword(k: DeclKind) -> Seq<char> {
    match k {
        DeclKind::Function => "fn"@,
        DeclKind::Type => "type"@,
        DeclKind::Enum => "enum"@,
        DeclKind::Struct => "struct"@,
        DeclKind::Trait => "trait"@,
        DeclKind::Use => "use"@,
        DeclKind::Import => Seq::empty(),
    }
}

/// Everything a kind's pattern captures in the line, unfiltered.
pub open spec fn captures_for(s: Seq<char>, k: DeclKind) -> Seq<Seq<char>> {
    match k {
        DeclKind::Import => import_captures_from(s, 0),
        _ => keyword_captures_from(s, kind_keyword(k), 0),
    }
}

/// Captured names that survive the emptiness, length and stopword rules.
pub open spec fn filter_registrable(caps: Seq<Seq<char>>) -> Seq<Seq<char>> {
    caps.filter(|w: Seq<char>| registrable(w))
}

/// The declaration kind a non-doc line is tagged with: the last kind in
/// the fixed priority order whose pattern matched, if any.
pub open spec fn decl_flavour(s: Seq<char>) -> Option<DeclKind> {
    if captures_for(s, DeclKind::Import).len() > 0 {
        Some(DeclKind::Import)
    } else if captures_for(s, DeclKind::Use).len() > 0 {
        Some(DeclKind::Use)
    } else if captures_for(s, DeclKind::Trait).len() > 0 {
        Some(DeclKind::Trait)
    } else if captures_for(s, DeclKind::Struct).len() > 0 {
        Some(DeclKind::Struct)
    } else if captures_for(s, DeclKind::Enum).len() > 0 {
        Some(DeclKind::Enum)
    } else if captures_for(s, DeclKind::Type).len() > 0 {
        Some(DeclKind::Type)
    } else if captures_for(s, DeclKind::Function).len() > 0 {
        Some(DeclKind::Function)
    } else {
        None
    }
}

/// The flavour classification of a whole line.
pub open spec fn classify_flavour(s: Seq<char>) -> Flavour {
    if spec_is_doc_line(s) {
        Flavour::DocComment
    } else {
        match decl_flavour(s) {
            Some(k) => Flavour::Declaration(k),
            None => Flavour::Plain,
        }
    }
}

/// The filtered captures a declaration-classified line contributes, each
/// kind's in priority order.
pub open spec fn decl_captures(s: Seq<char>) -> Seq<Seq<char>> {
    filter_registrable(captures_for(s, DeclKind::Function)) + filter_registrable(
        captures_for(s, DeclKind::Type),
    ) + filter_registrable(captures_for(s, DeclKind::Enum)) + filter_registrable(
        captures_for(s, DeclKind::Struct),
    ) + filter_registrable(captures_for(s, DeclKind::Trait)) + filter_registrable(
        captures_for(s, DeclKind::Use),
    ) + filter_registrable(captures_for(s, DeclKind::Import))
}

/// The identifiers a line contributes to its unit: nothing for a doc
/// line, otherwise each kind's filtered captures in priority order.
pub open spec fn classify_idents(s: Seq<char>) -> Seq<Seq<char>> {
    if spec_is_doc_line(s) {
        seq![]
    } else {
        decl_captures(s)
    }
}

/// Every name a keyword pattern captures is an identifier-character run.
pub proof fn lemma_keyword_captures_shaped(s: Seq<char>, kw: Seq<char>, from: int)
    ensures
        forall|j: int|
            0 <= j < keyword_captures_from(s, kw, from).len() ==> word_chars(
                #[trigger] keyword_captures_from(s, kw, from)[j],
            ),
    decreases s.len() - from,
{
    if from < 0 || from >= s.len() {
        assert(keyword_captures_from(s, kw, from).len() == 0);
    } else if kw_match_at(s, kw, from) {
        let cap_start = from + kw.len() + 1;
        let caplen = prefix_run(s.skip(cap_start), word_pred()) as int;
        lemma_prefix_run_props(s.skip(cap_start), word_pred());
        let next = cap_start + caplen;
        let cap = s.subrange(cap_start, next);
        assert(word_chars(cap)) by {
            assert forall|k: int| 0 <= k < cap.len() implies is_word_char(#[trigger] cap[k]) by {
                assert(cap[k] == s.skip(cap_start)[k]);
            }
        }
        lemma_keyword_captures_shaped(s, kw, next);
        assert(keyword_captures_from(s, kw, from) == seq![cap] + keyword_captures_from(
            s,
            kw,
            next,
        ));
        assert forall|j: int|
            0 <= j < keyword_captures_from(s, kw, from).len() implies word_chars(
            #[trigger] keyword_captures_from(s, kw, from)[j],
        ) by {
            if j > 0 {
                assert(keyword_captures_from(s, kw, from)[j] == keyword_captures_from(
                    s,
                    kw,
                    next,
                )[j - 1]);
            } else {
                assert(keyword_captures_from(s, kw, from)[0] == cap);
            }
        }
    } else {
        lemma_keyword_captures_shaped(s, kw, from + 1);
        assert(keyword_captures_from(s, kw, from) == keyword_captures_from(s, kw, from + 1));
        assert forall|j: int|
            0 <= j < keyword_captures_from(s, kw, from).len() implies word_chars(
            #[trigger] keyword_captures_from(s, kw, from)[j],
        ) by {
            assert(keyword_captures_from(s, kw, from)[j] == keyword_captures_from(
                s,
                kw,
                from + 1,
            )[j]);
        }
    }
}

/// Every name the import pattern captures is an identifier-character
/// run closed by its semicolon.
pub proof fn lemma_import_captures_shaped(s: Seq<char>, from: int)
    ensures
        forall|j: int|
            0 <= j < import_captures_from(s, from).len() ==> capture_shaped(
                #[trigger] import_captures_from(s, from)[j],
            ),
    decreases s.len() - from,
{
    if from < 0 || from >= s.len() {
    } else if import_match_at(s, from) {
        let run = prefix_run(s.skip(from + 2), word_pred()) as int;
        lemma_prefix_run_props(s.skip(from + 2), word_pred());
        let next = from + 2 + run + 1;
        let cap = s.subrange(from + 2, next);
        assert(capture_shaped(cap)) by {
            assert forall|k: int|
                0 <= k < cap.len() implies (is_word_char(#[trigger] cap[k]) || (k == cap.len() - 1
                && cap[k] == ';')) by {
                assert(cap[k] == s.skip(from + 2)[k]);
            }
        }
        lemma_import_captures_shaped(s, next);
        assert(import_captures_from(s, from) == seq![cap] + import_captures_from(s, next));
        assert forall|j: int|
            0 <= j < import_captures_from(s, from).len() implies capture_shaped(
            #[trigger] import_captures_from(s, from)[j],
        ) by {
            if j > 0 {
                assert(import_captures_from(s, from)[j] == import_captures_from(s, next)[j - 1]);
            } else {
                assert(import_captures_from(s, from)[0] == cap);
            }
        }
    } else {
        lemma_import_captures_shaped(s, from + 1);
        assert(import_captures_from(s, from) == import_captures_from(s, from + 1));
        assert forall|j: int|
            0 <= j < import_captures_from(s, from).len() implies capture_shaped(
            #[trigger] import_captures_from(s, from)[j],
        ) by {
            assert(import_captures_from(s, from)[j] == import_captures_from(s, from + 1)[j]);
        }
    }
}

/// Entries of a filtered capture list satisfy whatever every entry of
/// the unfiltered list satisfied.
pub proof fn lemma_filter_keeps(s: Seq<Seq<char>>, p: spec_fn(Seq<char>) -> bool)
    requires
        forall|j: int| 0 <= j < s.len() ==> p(#[trigger] s[j]),
    ensures
        forall|j: int|
            0 <= j < filter_registrable(s).len() ==> p(#[trigger] filter_registrable(s)[j]),
    decreases s.len(),
{
    reveal(Seq::filter);
    if s.len() > 0 {
        assert forall|j: int| 0 <= j < s.drop_last().len() implies p(
            #[trigger] s.drop_last()[j],
        ) by {
            assert(s.drop_last()[j] == s[j]);
        }
        lemma_filter_keeps(s.drop_last(), p);
        let f = filter_registrable(s);
        let fsub = filter_registrable(s.drop_last());
        assert forall|j: int| 0 <= j < f.len() implies p(#[trigger] f[j]) by {
            if registrable(s.last()) {
                assert(f == fsub.push(s.last()));
                if j < fsub.len() {
                    assert(f[j] == fsub[j]);
                } else {
                    assert(f[j] == s.last());
                    assert(p(s[s.len() - 1]));
                }
            } else {
                assert(f == fsub);
            }
        }
    }
}

/// Every entry of a filtered capture list passed the registry filter.
pub proof fn lemma_filter_registrable_entries(s: Seq<Seq<char>>)
    ensures
        forall|j: int|
            0 <= j < filter_registrable(s).len() ==> registrable(
                #[trigger] filter_registrable(s)[j],
            ),
    decreases s.len(),
{
    reveal(Seq::filter);
    if s.len() > 0 {
        lemma_filter_registrable_entries(s.drop_last());
        let f = filter_registrable(s);
        let fsub = filter_registrable(s.drop_last());
        assert forall|j: int| 0 <= j < f.len() implies registrable(#[trigger] f[j]) by {
            if registrable(s.last()) {
                assert(f == fsub.push(s.last()));
                if j < fsub.len() {
                    assert(f[j] == fsub[j]);
                } else {
                    assert(f[j] == s.last());
                }
            } else {
                assert(f == fsub);
            }
        }
    }
}

/// Every identifier a line contributes has the identifier and capture
/// shapes and passed the registry filter.
pub proof fn lemma_classify_idents_shaped(s: Seq<char>)
    ensures
        forall|j: int|
            0 <= j < classify_idents(s).len() ==> (ident_shaped(#[trigger] classify_idents(s)[j])
                && capture_shaped(classify_idents(s)[j]) && registrable(classify_idents(s)[j])),
{
    if !spec_is_doc_line(s) {
        assert forall|j: int|
            0 <= j < classify_idents(s).len() implies (ident_shaped(
            #[trigger] classify_idents(s)[j],
        ) && capture_shaped(classify_idents(s)[j]) && registrable(classify_idents(s)[j])) by {
            lemma_concat_entry_source(s, j);
            lemma_capture_ident_shaped(classify_idents(s)[j]);
        }
    }
}

/// Which filtered list a given entry of `decl_captures` comes from.
proof fn lemma_concat_entry_source(s: Seq<char>, j: int)
    requires
        0 <= j < decl_captures(s).len(),
    ensures
        capture_shaped(decl_captures(s)[j]),
        registrable(decl_captures(s)[j]),
{
    let shaped = |w: Seq<char>| capture_shaped(w);
    lemma_keyword_captures_shaped(s, "fn"@, 0);
    lemma_keyword_captures_shaped(s, "type"@, 0);
    lemma_keyword_captures_shaped(s, "enum"@, 0);
    lemma_keyword_captures_shaped(s, "struct"@, 0);
    lemma_keyword_captures_shaped(s, "trait"@, 0);
    lemma_keyword_captures_shaped(s, "use"@, 0);
    lemma_import_captures_shaped(s, 0);
    assert forall|k: int|
        0 <= k < keyword_captures_from(s, "fn"@, 0).len() implies shaped(
        #[trigger] keyword_captures_from(s, "fn"@, 0)[k],
    ) by {}
    assert forall|k: int|
        0 <= k < keyword_captures_from(s, "type"@, 0).len() implies shaped(
        #[trigger] keyword_captures_from(s, "type"@, 0)[k],
    ) by {}
    assert forall|k: int|
        0 <= k < keyword_captures_from(s, "enum"@, 0).len() implies shaped(
        #[trigger] keyword_captures_from(s, "enum"@, 0)[k],
    ) by {}
    assert forall|k: int|
        0 <= k < keyword_captures_from(s, "struct"@, 0).len() implies shaped(
        #[trigger] keyword_captures_from(s, "struct"@, 0)[k],
    ) by {}
    assert forall|k: int|
        0 <= k < keyword_captures_from(s, "trait"@, 0).len() implies shaped(
        #[trigger] keyword_captures_from(s, "trait"@, 0)[k],
    ) by {}
    assert forall|k: int|
        0 <= k < keyword_captures_from(s, "use"@, 0).len() implies shaped(
        #[trigger] keyword_captures_from(s, "use"@, 0)[k],
    ) by {}
    lemma_filter_keeps(captures_for(s, DeclKind::Function), shaped);
    lemma_filter_keeps(captures_for(s, DeclKind::Type), shaped);
    lemma_filter_keeps(captures_for(s, DeclKind::Enum), shaped);
    lemma_filter_keeps(captures_for(s, DeclKind::Struct), shaped);
    lemma_filter_keeps(captures_for(s, DeclKind::Trait), shaped);
    lemma_filter_keeps(captures_for(s, DeclKind::Use), shaped);
    lemma_filter_keeps(captures_for(s, DeclKind::Import), shaped);
    lemma_filter_registrable_entries(captures_for(s, DeclKind::Function));
    lemma_filter_registrable_entries(captures_for(s, DeclKind::Type));
    lemma_filter_registrable_entries(captures_for(s, DeclKind::Enum));
    lemma_filter_registrable_entries(captures_for(s, DeclKind::Struct));
    lemma_filter_registrable_entries(captures_for(s, DeclKind::Trait));
    lemma_filter_registrable_entries(captures_for(s, DeclKind::Use));
    lemma_filter_registrable_entries(captures_for(s, DeclKind::Import));
}

/// First position at or after `start` whose character is not an
/// identifier character.
pub fn word_run_end(text: &[char], start: usize) -> (j: usize)
    requires
        start <= text@.len(),
    ensures
        start <= j <= text@.len(),
        j - start == prefix_run(text@.skip(start as int), word_pred()),
{
    let mut j = start;
    while j < text.len() && word_char(text[j])
        invariant
            start <= j <= text@.len(),
            forall|k: int| start <= k < j ==> is_word_char(#[trigger] text@[k]),
        decreases text@.len() - j,
    {
        j += 1;
    }
    proof {
        let t = text@.skip(start as int);
        assert forall|k: int| 0 <= k < j - start implies word_pred()(#[trigger] t[k]) by {
            assert(t[k] == text@[start + k]);
        }
        if j - start < t.len() {
            assert(t[j - start] == text@[j as int]);
        }
        lemma_prefix_run(t, word_pred(), j - start);
    }
    j
}

/// All captures of a keyword pattern on this line, left to right.
pub fn captures_kw(text: &[char], kw: &[char]) -> (caps: Vec<Vec<char>>)
    ensures
        caps.deep_view() == keyword_captures_from(text@, kw@, 0),
{
    let mut caps: Vec<Vec<char>> = Vec::new();
    let mut i: usize = 0;
    proof {
        assert(caps.deep_view() + keyword_captures_from(text@, kw@, 0) =~= keyword_captures_from(
            text@,
            kw@,
            0,
        ));
    }
    while i < text.len()
        invariant
            i <= text@.len(),
            keyword_captures_from(text@, kw@, 0) == caps.deep_view() + keyword_captures_from(
                text@,
                kw@,
                i as int,
            ),
        decreases text@.len() - i,
    {
        let matched = kw.len() < text.len() - i && matches_at(text, i, kw) && space_char(
            text[i + kw.len()],
        );
        if matched {
            let cap_start = i + kw.len() + 1;
            let j = word_run_end(text, cap_start);
            let cap = copy_range(text, cap_start, j);
            proof {
                assert(kw_match_at(text@, kw@, i as int));
                assert(keyword_captures_from(text@, kw@, i as int) == seq![
                    text@.subrange(cap_start as int, j as int),
                ] + keyword_captures_from(text@, kw@, j as int));
            }
            let ghost pre = caps.deep_view();
            caps.push(cap);
            proof {
                assert(cap.deep_view() =~= cap@);
                assert(caps.deep_view() =~= pre.push(cap@));
                assert(pre + (seq![cap@] + keyword_captures_from(text@, kw@, j as int)) =~= pre
                    .push(cap@) + keyword_captures_from(text@, kw@, j as int));
            }
            i = j;
        } else {
            proof {
                assert(!kw_match_at(text@, kw@, i as int));
            }
            i += 1;
        }
    }
    proof {
        assert(caps.deep_view() + keyword_captures_from(text@, kw@, i as int) =~= caps.deep_view());
    }
    caps
}

/// All captures of the import pattern on this line, left to right.
pub fn captures_import(text: &[char]) -> (caps: Vec<Vec<char>>)
    ensures
        caps.deep_view() == import_captures_from(text@, 0),
{
    let mut caps: Vec<Vec<char>> = Vec::new();
    let mut i: usize = 0;
    proof {
        assert(caps.deep_view() + import_captures_from(text@, 0) =~= import_captures_from(
            text@,
            0,
        ));
    }
    while i < text.len()
        invariant
            i <= text@.len(),
            import_captures_from(text@, 0) == caps.deep_view() + import_captures_from(
                text@,
                i as int,
            ),
        decreases text@.len() - i,
    {
        let has_colons = text.len() - i >= 2 && text[i] == ':' && text[i + 1] == ':';
        let mut advanced = false;
        if has_colons {
            proof {
                assert(contains_at(text@, i as int, seq![':', ':'])) by {
                    assert(text@.subrange(i as int, i + 2) =~= seq![':', ':']);
                }
            }
            let j = word_run_end(text, i + 2);
            if j < text.len() && text[j] == ';' {
                let cap = copy_range(text, i + 2, j + 1);
                proof {
                    assert(import_match_at(text@, i as int));
                    assert(import_captures_from(text@, i as int) == seq![
                        text@.subrange(i + 2, j + 1),
                    ] + import_captures_from(text@, j + 1));
                }
                let ghost pre = caps.deep_view();
                caps.push(cap);
                proof {
                    assert(cap.deep_view() =~= cap@);
                    assert(caps.deep_view() =~= pre.push(cap@));
                    assert(pre + (seq![cap@] + import_captures_from(text@, j + 1)) =~= pre.push(
                        cap@,
                    ) + import_captures_from(text@, j + 1));
                }
                i = j + 1;
                advanced = true;
            } else {
                proof {
                    assert(!import_match_at(text@, i as int));
                }
            }
        } else {
            proof {
                assert(!import_match_at(text@, i as int)) by {
                    if contains_at(text@, i as int, seq![':', ':']) {
                        assert(text@.subrange(i as int, i + 2)[0] == text@[i as int]);
                        assert(text@.subrange(i as int, i + 2)[1] == text@[i + 1]);
                    }
                }
            }
        }
        if !advanced {
            i += 1;
        }
    }
    proof {
        assert(caps.deep_view() + import_captures_from(text@, i as int) =~= caps.deep_view());
    }
    caps
}

/// Whether the line is a doc-comment line.
pub fn doc_line(text: &[char]) -> (r: bool)
    ensures
        r == spec_is_doc_line(text@),
{
    let mut i: usize = 0;
    while i < text.len() && space_char(text[i])
        invariant
            i <= text@.len(),
            forall|k: int| 0 <= k < i ==> is_space_char(#[trigger] text@[k]),
        decreases text@.len() - i,
    {
        i += 1;
    }
    proof {
        assert forall|k: int| 0 <= k < i implies space_pred()(#[trigger] text@[k]) by {}
        lemma_prefix_run(text@, space_pred(), i as int);
        assert(text@.skip(i as int).len() == text@.len() - i);
    }
    if text.len() - i >= 3 {
        proof {
            assert(text@.skip(i as int)[0] == text@[i as int]);
            assert(text@.skip(i as int)[1] == text@[i + 1]);
            assert(text@.skip(i as int)[2] == text@[i + 2]);
        }
        text[i] == '/' && text[i + 1] == '/' && text[i + 2] == '/'
    } else {
        false
    }
}

/// Appends the captures that survive the registry filter, converted to
/// strings, in order.
fn push_filtered(dst: &mut Vec<String>, caps: &Vec<Vec<char>>)
    ensures
        final(dst).deep_view() == old(dst).deep_view() + filter_registrable(caps.deep_view()),
{
    let ghost base = dst.deep_view();
    let mut k: usize = 0;
    proof {
        reveal(Seq::filter);
        assert(filter_registrable(caps.deep_view().take(0)) =~= Seq::<Seq<char>>::empty()) by {
            assert(caps.deep_view().take(0) =~= Seq::<Seq<char>>::empty());
        }
        assert(base + filter_registrable(caps.deep_view().take(0)) =~= base);
    }
    while k < caps.len()
        invariant
            k <= caps@.len(),
            caps.deep_view().len() == caps@.len(),
            base == old(dst).deep_view(),
            dst.deep_view() == base + filter_registrable(caps.deep_view().take(k as int)),
        decreases caps@.len() - k,
    {
        let ghost pref = caps.deep_view().take(k as int);
        let ghost pref1 = caps.deep_view().take(k + 1);
        proof {
            reveal(Seq::filter);
            assert(pref1.drop_last() =~= pref);
            assert(pref1.last() == caps.deep_view()[k as int]);
            assert(caps@[k as int].deep_view() =~= caps@[k as int]@);
            assert(caps.deep_view()[k as int] == caps@[k as int]@);
        }
        let w = &caps[k];
        if registrable_ident(w.as_slice()) {
            let ghost pre = dst.deep_view();
            dst.push(string_of(w.as_slice()));
            proof {
                reveal(Seq::filter);
                assert(dst.deep_view() =~= pre.push(w@));
                assert(filter_registrable(pref1) == filter_registrable(pref).push(w@));
                assert(base + filter_registrable(pref).push(w@) =~= (base + filter_registrable(
                    pref,
                )).push(w@));
            }
        } else {
            proof {
                reveal(Seq::filter);
                assert(filter_registrable(pref1) == filter_registrable(pref));
            }
        }
        k += 1;
    }
    proof {
        assert(caps.deep_view().take(caps@.len() as int) =~= caps.deep_view());
    }
}

/// A line from a source file exactly as ingested, together with what the
/// classifier found out about it.
#[derive(Debug, Clone)]
pub struct RawLine {
    /// The line's position in its unit; never changes after creation.
    pub line_num: usize,
    /// Rewrite-progress tag; informational only.
    pub all_linked: Linked,
    /// The raw text of the line.
    pub contents: String,
    /// What the classifier decided the line is.
    pub flavour: Flavour,
    /// The filtered identifiers this line declares.
    pub idents: Vec<String>,
    /// The path of the unit the line belongs to.
    pub source_file: String,
}

impl RawLine {
    /// Detects a doc-comment line and tags it; every other flavour is left
    /// for the declaration patterns.
    pub fn find_docs(&mut self)
        ensures
            final(self).flavour == (if spec_is_doc_line(old(self).contents@) {
                Flavour::DocComment
            } else {
                old(self).flavour
            }),
            final(self).line_num == old(self).line_num,
            final(self).all_linked == old(self).all_linked,
            final(self).contents == old(self).contents,
            final(self).idents == old(self).idents,
            final(self).source_file == old(self).source_file,
    {
        let text = chars_of(self.contents.as_str());
        if doc_line(text.as_slice()) {
            self.flavour = Flavour::DocComment;
        }
    }

    /// Runs every declaration pattern over a non-doc line: all filtered
    /// captures are appended to the line's identifiers, and the flavour
    /// keeps the last kind that matched. A line already tagged as a doc
    /// comment is never a declaration source and is left untouched.
    #[verifier::rlimit(50)]
    pub fn find_idents(&mut self)
        ensures
            old(self).flavour == Flavour::DocComment ==> *final(self) == *old(self),
            old(self).flavour != Flavour::DocComment ==> {
                &&& final(self).idents.deep_view() == old(self).idents.deep_view()
                    + decl_captures(old(self).contents@)
                &&& final(self).flavour == (match decl_flavour(old(self).contents@) {
                    Some(k) => Flavour::Declaration(k),
                    None => old(self).flavour,
                })
                &&& final(self).line_num == old(self).line_num
                &&& final(self).all_linked == old(self).all_linked
                &&& final(self).contents == old(self).contents
                &&& final(self).source_file == old(self).source_file
            },
    {
        if self.flavour == Flavour::DocComment {
            return ;
        }
        let text = chars_of(self.contents.as_str());
        let t = text.as_slice();
        let kw_fn = chars_of("fn");
        let kw_ty = chars_of("type");
        let kw_enum = chars_of("enum");
        let kw_struct = chars_of("struct");
        let kw_trait = chars_of("trait");
        let kw_use = chars_of("use");
        let caps_fn = captures_kw(t, kw_fn.as_slice());
        let caps_ty = captures_kw(t, kw_ty.as_slice());
        let caps_enum = captures_kw(t, kw_enum.as_slice());
        let caps_struct = captures_kw(t, kw_struct.as_slice());
        let caps_trait = captures_kw(t, kw_trait.as_slice());
        let caps_use = captures_kw(t, kw_use.as_slice());
        let caps_import = captures_import(t);
        if caps_fn.len() > 0 {
            self.flavour = Flavour::Declaration(DeclKind::Function);
        }
        if caps_ty.len() > 0 {
            self.flavour = Flavour::Declaration(DeclKind::Type);
        }
        if caps_enum.len() > 0 {
            self.flavour = Flavour::Declaration(DeclKind::Enum);
        }
        if caps_struct.len() > 0 {
            self.flavour = Flavour::Declaration(DeclKind::Struct);
        }
        if caps_trait.len() > 0 {
            self.flavour = Flavour::Declaration(DeclKind::Trait);
        }
        if caps_use.len() > 0 {
            self.flavour = Flavour::Declaration(DeclKind::Use);
        }
        if caps_import.len() > 0 {
            self.flavour = Flavour::Declaration(DeclKind::Import);
        }
        push_filtered(&mut self.idents, &caps_fn);
        push_filtered(&mut self.idents, &caps_ty);
        push_filtered(&mut self.idents, &caps_enum);
        push_filtered(&mut self.idents, &caps_struct);
        push_filtered(&mut self.idents, &caps_trait);
        push_filtered(&mut self.idents, &caps_use);
        push_filtered(&mut self.idents, &caps_import);
        proof {
            assert(self.idents.deep_view() =~= old(self).idents.deep_view() + decl_captures(
                old(self).contents@,
            ));
        }
    }
}

} // verus!
