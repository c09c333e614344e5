//! Source units and the corpus.
//!
//! A `RawSourceCode` owns the classified lines of one file; a
//! `SourceTree` owns every unit of a scan and derives the corpus-wide
//! identifier registry from them. Ingestion takes the file's lines as
//! plain strings: reading (and any read failure, which simply yields an
//! empty unit) is the caller's business.
use vstd::prelude::*;
use crate::chars::chars_of;
use crate::chars::{capture_shaped, ident_shaped};
use crate::classify::{
    classify_flavour, classify_idents, spec_is_doc_line, filter_registrable, Flavour, Linked,
    RawLine, lemma_classify_idents_shaped, lemma_filter_keeps, lemma_filter_registrable_entries,
};
use crate::rewrite::{apply_idents, pass_text, AdjustedLine};
use crate::tables::{registrable, registrable_ident};

verus! {

/// The identifiers every line of a unit contributes, in line order.
pub open spec fn concat_idents(texts: Seq<Seq<char>>) -> Seq<Seq<char>>
    decreases texts.len(),
{
    if texts.len() == 0 {
        seq![]
    } else {
        concat_idents(texts.drop_last()) + classify_idents(texts.last())
    }
}

/// First-seen deduplication: keeps the first occurrence of every entry,
/// in order of first appearance.
pub open spec fn dedup_first(s: Seq<Seq<char>>) -> Seq<Seq<char>>
    decreases s.len(),
{
    if s.len() == 0 {
        s
    } else {
        let rest = dedup_first(s.drop_last());
        if rest.contains(s.last()) {
            rest
        } else {
            rest.push(s.last())
        }
    }
}

/// The line numbers of the doc-comment lines, in order.
pub open spec fn doc_locs_of(texts: Seq<Seq<char>>) -> Seq<usize>
    decreases texts.len(),
{
    if texts.len() == 0 {
        seq![]
    } else {
        doc_locs_of(texts.drop_last()) + if spec_is_doc_line(texts.last()) {
            seq![(texts.len() - 1) as usize]
        } else {
            seq![]
        }
    }
}

/// The line numbers of the lines that contribute identifiers, in order.
pub open spec fn ident_locs_of(texts: Seq<Seq<char>>) -> Seq<usize>
    decreases texts.len(),
{
    if texts.len() == 0 {
        seq![]
    } else {
        ident_locs_of(texts.drop_last()) + if classify_idents(texts.last()).len() > 0 {
            seq![(texts.len() - 1) as usize]
        } else {
            seq![]
        }
    }
}

/// Whether a string list holds this string.
pub fn contains_string(v: &Vec<String>, w: &String) -> (r: bool)
    ensures
        r == v.deep_view().contains(w@),
{
    let mut j: usize = 0;
    while j < v.len()
        invariant
            j <= v@.len(),
            v.deep_view().len() == v@.len(),
            forall|m: int| 0 <= m < j ==> v.deep_view()[m] != w@,
        decreases v@.len() - j,
    {
        if (&v[j]).eq(w) {
            proof {
                assert(v.deep_view()[j as int] == w@);
            }
            return true;
        }
        j += 1;
    }
    proof {
        if v.deep_view().contains(w@) {
            let m = choose|m: int| 0 <= m < v.deep_view().len() && v.deep_view()[m] == w@;
            assert(false);
        }
    }
    false
}

/// Appends a copy of every string in `src` to `dst`.
pub fn push_all_strings(dst: &mut Vec<String>, src: &Vec<String>)
    ensures
        final(dst).deep_view() == old(dst).deep_view() + src.deep_view(),
{
    let ghost base = dst.deep_view();
    let mut k: usize = 0;
    proof {
        assert(base + src.deep_view().take(0) =~= base);
    }
    while k < src.len()
        invariant
            k <= src@.len(),
            src.deep_view().len() == src@.len(),
            base == old(dst).deep_view(),
            dst.deep_view() == base + src.deep_view().take(k as int),
        decreases src@.len() - k,
    {
        let ghost pre = dst.deep_view();
        dst.push((&src[k]).clone());
        proof {
            assert(dst.deep_view() =~= pre.push(src.deep_view()[k as int]));
            assert(base + src.deep_view().take(k + 1) =~= (base + src.deep_view().take(
                k as int,
            )).push(src.deep_view()[k as int]));
        }
        k += 1;
    }
    proof {
        assert(src.deep_view().take(src@.len() as int) =~= src.deep_view());
    }
}

/// First-seen deduplication of a string list.
pub fn dedup_strings(v: &Vec<String>) -> (out: Vec<String>)
    ensures
        out.deep_view() == dedup_first(v.deep_view()),
{
    let mut out: Vec<String> = Vec::new();
    let mut k: usize = 0;
    proof {
        assert(v.deep_view().take(0) =~= Seq::<Seq<char>>::empty());
        assert(out.deep_view() =~= dedup_first(v.deep_view().take(0)));
    }
    while k < v.len()
        invariant
            k <= v@.len(),
            v.deep_view().len() == v@.len(),
            out.deep_view() == dedup_first(v.deep_view().take(k as int)),
        decreases v@.len() - k,
    {
        let ghost pref = v.deep_view().take(k as int);
        let ghost pref1 = v.deep_view().take(k + 1);
        proof {
            assert(pref1.drop_last() =~= pref);
            assert(pref1.last() == v.deep_view()[k as int]);
        }
        if !contains_string(&out, &v[k]) {
            let ghost pre = out.deep_view();
            out.push((&v[k]).clone());
            proof {
                assert(out.deep_view() =~= pre.push(v.deep_view()[k as int]));
            }
        }
        k += 1;
    }
    proof {
        assert(v.deep_view().take(v@.len() as int) =~= v.deep_view());
    }
    out
}

/// Keeps only the strings that pass the registry filter.
pub fn filter_strings(v: &Vec<String>) -> (out: Vec<String>)
    ensures
        out.deep_view() == filter_registrable(v.deep_view()),
{
    let mut out: Vec<String> = Vec::new();
    let mut k: usize = 0;
    proof {
        reveal(Seq::filter);
        assert(v.deep_view().take(0) =~= Seq::<Seq<char>>::empty());
        assert(out.deep_view() =~= filter_registrable(v.deep_view().take(0)));
    }
    while k < v.len()
        invariant
            k <= v@.len(),
            v.deep_view().len() == v@.len(),
            out.deep_view() == filter_registrable(v.deep_view().take(k as int)),
        decreases v@.len() - k,
    {
        let ghost pref = v.deep_view().take(k as int);
        let ghost pref1 = v.deep_view().take(k + 1);
        proof {
            reveal(Seq::filter);
            assert(pref1.drop_last() =~= pref);
            assert(pref1.last() == v.deep_view()[k as int]);
        }
        let w = chars_of(v[k].as_str());
        if registrable_ident(w.as_slice()) {
            let ghost pre = out.deep_view();
            out.push((&v[k]).clone());
            proof {
                reveal(Seq::filter);
                assert(out.deep_view() =~= pre.push(v.deep_view()[k as int]));
            }
        } else {
            proof {
                reveal(Seq::filter);
            }
        }
        k += 1;
    }
    proof {
        assert(v.deep_view().take(v@.len() as int) =~= v.deep_view());
    }
    out
}

/// Most of what the pipeline needs to know about one file of source.
#[derive(Debug)]
pub struct RawSourceCode {
    /// The classified lines, in order; a line's number is its position.
    pub lines: Vec<RawLine>,
    /// The path on disk this all came from.
    pub file: String,
    /// Line numbers of the lines that declare identifiers.
    pub ident_locs: Vec<usize>,
    /// Line numbers of the doc-comment lines.
    pub doc_locs: Vec<usize>,
    /// Total number of lines in this unit.
    pub total_lines: usize,
    /// The identifiers found in this unit, first seen first.
    pub named_idents: Vec<String>,
}

/// What ingestion guarantees of a unit built from the given path and
/// line texts.
pub open spec fn unit_from(u: RawSourceCode, file: Seq<char>, texts: Seq<Seq<char>>) -> bool {
    &&& u.file@ == file
    &&& u.total_lines == texts.len()
    &&& u.lines@.len() == texts.len()
    &&& forall|i: int|
        0 <= i < texts.len() ==> (#[trigger] u.lines@[i]).line_num == i
    &&& forall|i: int|
        0 <= i < texts.len() ==> (#[trigger] u.lines@[i]).contents@ == texts[i]
    &&& forall|i: int|
        0 <= i < texts.len() ==> (#[trigger] u.lines@[i]).source_file@ == file
    &&& forall|i: int|
        0 <= i < texts.len() ==> (#[trigger] u.lines@[i]).all_linked == Linked::Unprocessed
    &&& forall|i: int|
        0 <= i < texts.len() ==> (#[trigger] u.lines@[i]).flavour == classify_flavour(texts[i])
    &&& forall|i: int|
        0 <= i < texts.len() ==> (#[trigger] u.lines@[i]).idents.deep_view() == classify_idents(
            texts[i],
        )
    &&& u.doc_locs@ == doc_locs_of(texts)
    &&& u.ident_locs@ == ident_locs_of(texts)
    &&& u.named_idents.deep_view() == dedup_first(concat_idents(texts))
}

impl RawSourceCode {
    /// Builds one unit from a file's path and its lines as read; every
    /// line is classified, and the unit's identifier list is the
    /// first-seen deduplication of what the lines contribute.
    pub fn new_from_file(file: &String, input_lines: &Vec<String>) -> (rsc: RawSourceCode)
        ensures
            unit_from(rsc, file@, input_lines.deep_view()),
    {
        let ghost texts = input_lines.deep_view();
        let mut lines: Vec<RawLine> = Vec::new();
        let mut gathered: Vec<String> = Vec::new();
        let mut doc_locs: Vec<usize> = Vec::new();
        let mut ident_locs: Vec<usize> = Vec::new();
        let mut e: usize = 0;
        proof {
            assert(texts.take(0) =~= Seq::<Seq<char>>::empty());
            assert(gathered.deep_view() =~= concat_idents(texts.take(0)));
            assert(doc_locs@ =~= doc_locs_of(texts.take(0)));
            assert(ident_locs@ =~= ident_locs_of(texts.take(0)));
        }
        while e < input_lines.len()
            invariant
                e <= input_lines@.len(),
                texts == input_lines.deep_view(),
                texts.len() == input_lines@.len(),
                lines@.len() == e,
                forall|i: int| 0 <= i < e ==> (#[trigger] lines@[i]).line_num == i,
                forall|i: int| 0 <= i < e ==> (#[trigger] lines@[i]).contents@ == texts[i],
                forall|i: int| 0 <= i < e ==> (#[trigger] lines@[i]).source_file@ == file@,
                forall|i: int|
                    0 <= i < e ==> (#[trigger] lines@[i]).all_linked == Linked::Unprocessed,
                forall|i: int|
                    0 <= i < e ==> (#[trigger] lines@[i]).flavour == classify_flavour(texts[i]),
                forall|i: int|
                    0 <= i < e ==> (#[trigger] lines@[i]).idents.deep_view() == classify_idents(
                        texts[i],
                    ),
                gathered.deep_view() == concat_idents(texts.take(e as int)),
                doc_locs@ == doc_locs_of(texts.take(e as int)),
                ident_locs@ == ident_locs_of(texts.take(e as int)),
            decreases input_lines@.len() - e,
        {
            let mut rl = RawLine {
                line_num: e,
                all_linked: Linked::Unprocessed,
                contents: (&input_lines[e]).clone(),
                flavour: Flavour::Plain,
                idents: Vec::new(),
                source_file: file.clone(),
            };
            rl.find_docs();
            rl.find_idents();
            proof {
                assert(texts[e as int] == input_lines@[e as int]@);
                assert(rl.flavour == classify_flavour(texts[e as int]));
                assert(rl.idents.deep_view() =~= classify_idents(texts[e as int]));
                assert(texts.take(e + 1).drop_last() =~= texts.take(e as int));
                assert(texts.take(e + 1).last() == texts[e as int]);
            }
            if rl.flavour == Flavour::DocComment {
                doc_locs.push(e);
            }
            if rl.idents.len() > 0 {
                ident_locs.push(e);
            }
            push_all_strings(&mut gathered, &rl.idents);
            lines.push(rl);
            e += 1;
        }
        proof {
            assert(texts.take(texts.len() as int) =~= texts);
        }
        let named_idents = dedup_strings(&gathered);
        let total_lines = lines.len();
        RawSourceCode { lines, file: file.clone(), ident_locs, doc_locs, total_lines, named_idents }
    }
}

/// What an adjustment says, as plain values: the line number, the new
/// text, the owning file.
pub open spec fn adj_view(a: AdjustedLine) -> (usize, Seq<char>, Seq<char>) {
    (a.line_num, a.contents@, a.source_file@)
}

/// A whole adjustment list, as plain values.
pub open spec fn adjs_view(s: Seq<AdjustedLine>) -> Seq<(usize, Seq<char>, Seq<char>)> {
    s.map_values(|a: AdjustedLine| adj_view(a))
}

/// A full registry pass changes this line: only a doc-comment line whose
/// text the pass rewrites.
pub open spec fn line_changed(l: RawLine, ids: Seq<Seq<char>>) -> bool {
    l.flavour == Flavour::DocComment && pass_text(l.contents@, ids) != l.contents@
}

/// The adjustments the rewrite engine owes for these lines: one per line
/// the pass changes, in line order, carrying the rewritten text.
pub open spec fn spec_adjustments(lines: Seq<RawLine>, ids: Seq<Seq<char>>) -> Seq<
    (usize, Seq<char>, Seq<char>),
>
    decreases lines.len(),
{
    if lines.len() == 0 {
        seq![]
    } else {
        spec_adjustments(lines.drop_last(), ids) + if line_changed(lines.last(), ids) {
            seq![
                (
                    lines.last().line_num,
                    pass_text(lines.last().contents@, ids),
                    lines.last().source_file@,
                ),
            ]
        } else {
            seq![]
        }
    }
}

impl RawSourceCode {
    /// Runs the registry over every line of the unit and returns one
    /// adjustment per line that ends up modified; the unit itself is not
    /// touched, and lines that are not doc comments never produce one.
    pub fn make_adjustments(&self, idents: &Vec<String>) -> (changes: Vec<AdjustedLine>)
        ensures
            adjs_view(changes@) == spec_adjustments(self.lines@, idents.deep_view()),
    {
        let ghost ids = idents.deep_view();
        let mut changes: Vec<AdjustedLine> = Vec::new();
        let mut i: usize = 0;
        proof {
            assert(self.lines@.take(0) =~= Seq::<RawLine>::empty());
            assert(adjs_view(changes@) =~= spec_adjustments(self.lines@.take(0), ids));
        }
        while i < self.lines.len()
            invariant
                i <= self.lines@.len(),
                ids == idents.deep_view(),
                adjs_view(changes@) == spec_adjustments(self.lines@.take(i as int), ids),
            decreases self.lines@.len() - i,
        {
            let ghost pref1 = self.lines@.take(i + 1);
            proof {
                assert(pref1.drop_last() =~= self.lines@.take(i as int));
                assert(pref1.last() == self.lines@[i as int]);
            }
            let l = &self.lines[i];
            if l.flavour == Flavour::DocComment {
                let new_text = apply_idents(&l.contents, idents);
                if !(&new_text).eq(&l.contents) {
                    let ghost pre = changes@;
                    changes.push(
                        AdjustedLine {
                            line_num: l.line_num,
                            contents: new_text,
                            source_file: l.source_file.clone(),
                        },
                    );
                    proof {
                        assert(adjs_view(changes@) =~= adjs_view(pre) + seq![
                            (l.line_num, pass_text(l.contents@, ids), l.source_file@),
                        ]);
                    }
                } else {
                    proof {
                        assert(adjs_view(changes@) + Seq::<
                            (usize, Seq<char>, Seq<char>),
                        >::empty() =~= adjs_view(changes@));
                    }
                }
            } else {
                proof {
                    assert(adjs_view(changes@) + Seq::<(usize, Seq<char>, Seq<char>)>::empty()
                        =~= adjs_view(changes@));
                }
            }
            i += 1;
        }
        proof {
            assert(self.lines@.take(self.lines@.len() as int) =~= self.lines@);
        }
        changes
    }
}

/// The replacement text an adjustment list holds for a line number: the
/// first entry with that number, if any.
pub open spec fn change_for(changes: Seq<AdjustedLine>, n: usize) -> Option<Seq<char>>
    decreases changes.len(),
{
    if changes.len() == 0 {
        None
    } else if changes[0].line_num == n {
        Some(changes[0].contents@)
    } else {
        change_for(changes.drop_first(), n)
    }
}

/// What the materializer owes for one line: the adjustment's text where
/// one exists, the original text everywhere else.
pub open spec fn materialized_line(
    lines: Seq<RawLine>,
    changes: Seq<AdjustedLine>,
    n: usize,
) -> Seq<char> {
    match change_for(changes, n) {
        Some(t) => t,
        None => lines[n as int].contents@,
    }
}

/// The position of the first adjustment for line `n`, if any.
fn find_change(changes: &Vec<AdjustedLine>, n: usize) -> (r: Option<usize>)
    ensures
        match r {
            Some(j) => j < changes@.len() && change_for(changes@, n) == Some(
                changes@[j as int].contents@,
            ),
            None => change_for(changes@, n) is None,
        },
{
    let mut j: usize = 0;
    proof {
        assert(changes@.skip(0) =~= changes@);
    }
    while j < changes.len()
        invariant
            j <= changes@.len(),
            change_for(changes@, n) == change_for(changes@.skip(j as int), n),
        decreases changes@.len() - j,
    {
        proof {
            assert(changes@.skip(j as int)[0] == changes@[j as int]);
            assert(changes@.skip(j as int).drop_first() =~= changes@.skip(j + 1));
        }
        if changes[j].line_num == n {
            return Some(j);
        }
        j += 1;
    }
    None
}

impl RawSourceCode {
    /// Reassembles the unit's full text: for every line number in order,
    /// the adjustment's new text where one exists, the original line
    /// everywhere else. The line count never changes.
    pub fn materialize(&self, changes: &Vec<AdjustedLine>) -> (out: Vec<String>)
        requires
            self.total_lines == self.lines@.len(),
        ensures
            out@.len() == self.total_lines,
            forall|n: usize|
                n < self.total_lines ==> (#[trigger] out@[n as int])@ == materialized_line(
                    self.lines@,
                    changes@,
                    n,
                ),
    {
        let mut out: Vec<String> = Vec::new();
        let mut i: usize = 0;
        while i < self.total_lines
            invariant
                i <= self.total_lines,
                self.total_lines == self.lines@.len(),
                out@.len() == i,
                forall|n: usize|
                    n < i ==> (#[trigger] out@[n as int])@ == materialized_line(
                        self.lines@,
                        changes@,
                        n,
                    ),
            decreases self.total_lines - i,
        {
            match find_change(changes, i) {
                Some(j) => {
                    out.push((&changes[j].contents).clone());
                },
                None => {
                    out.push((&self.lines[i].contents).clone());
                },
            }
            i += 1;
        }
        out
    }
}

/// Every unit's identifier list, concatenated in unit order.
pub open spec fn merged_idents(units: Seq<RawSourceCode>) -> Seq<Seq<char>>
    decreases units.len(),
{
    if units.len() == 0 {
        seq![]
    } else {
        merged_idents(units.drop_last()) + units.last().named_idents.deep_view()
    }
}

/// The corpus-wide registry: the units' identifiers merged in order,
/// deduplicated first-seen, with the stopword and length rules applied
/// once more.
pub open spec fn registry_of(units: Seq<RawSourceCode>) -> Seq<Seq<char>> {
    filter_registrable(dedup_first(merged_idents(units)))
}

/// The shapes every registry entry can be relied on to have: it came
/// out of a capture and passed the registry filter.
pub open spec fn ident_ok(w: Seq<char>) -> bool {
    ident_shaped(w) && capture_shaped(w) && registrable(w)
}

/// Every identifier a unit's lines contribute has the capture shapes
/// and passed the registry filter.
pub proof fn lemma_concat_idents_shaped(texts: Seq<Seq<char>>)
    ensures
        forall|j: int| 0 <= j < concat_idents(texts).len() ==> ident_ok(
            #[trigger] concat_idents(texts)[j],
        ),
    decreases texts.len(),
{
    if texts.len() > 0 {
        lemma_concat_idents_shaped(texts.drop_last());
        lemma_classify_idents_shaped(texts.last());
        let sub = concat_idents(texts.drop_last());
        assert forall|j: int|
            0 <= j < concat_idents(texts).len() implies ident_ok(
            #[trigger] concat_idents(texts)[j],
        ) by {
            if j < sub.len() {
                assert(concat_idents(texts)[j] == sub[j]);
            } else {
                assert(concat_idents(texts)[j] == classify_idents(texts.last())[j - sub.len()]);
            }
        }
    }
}

/// First-seen deduplication keeps only entries of its input, so any
/// entry-wise property survives it.
pub proof fn lemma_dedup_keeps(s: Seq<Seq<char>>, p: spec_fn(Seq<char>) -> bool)
    requires
        forall|j: int| 0 <= j < s.len() ==> p(#[trigger] s[j]),
    ensures
        forall|j: int| 0 <= j < dedup_first(s).len() ==> p(#[trigger] dedup_first(s)[j]),
    decreases s.len(),
{
    if s.len() > 0 {
        assert forall|j: int| 0 <= j < s.drop_last().len() implies p(
            #[trigger] s.drop_last()[j],
        ) by {
            assert(s.drop_last()[j] == s[j]);
        }
        lemma_dedup_keeps(s.drop_last(), p);
        let d = dedup_first(s);
        let dsub = dedup_first(s.drop_last());
        assert forall|j: int| 0 <= j < d.len() implies p(#[trigger] d[j]) by {
            if !dsub.contains(s.last()) {
                assert(d == dsub.push(s.last()));
                if j < dsub.len() {
                    assert(d[j] == dsub[j]);
                } else {
                    assert(d[j] == s.last());
                    assert(p(s[s.len() - 1]));
                }
            } else {
                assert(d == dsub);
            }
        }
    }
}

/// The merged identifier list inherits any property every unit's
/// identifiers have.
pub proof fn lemma_merged_keeps(units: Seq<RawSourceCode>, p: spec_fn(Seq<char>) -> bool)
    requires
        forall|u: int, j: int|
            0 <= u < units.len() && 0 <= j < units[u].named_idents.deep_view().len() ==> p(
                #[trigger] units[u].named_idents.deep_view()[j],
            ),
    ensures
        forall|j: int| 0 <= j < merged_idents(units).len() ==> p(#[trigger] merged_idents(units)[j]),
    decreases units.len(),
{
    if units.len() > 0 {
        assert forall|u: int, j: int|
            0 <= u < units.drop_last().len() && 0 <= j < units.drop_last()[u].named_idents
                .deep_view().len() implies p(
            #[trigger] units.drop_last()[u].named_idents.deep_view()[j],
        ) by {
            assert(units.drop_last()[u] == units[u]);
        }
        lemma_merged_keeps(units.drop_last(), p);
        let sub = merged_idents(units.drop_last());
        assert forall|j: int| 0 <= j < merged_idents(units).len() implies p(
            #[trigger] merged_idents(units)[j],
        ) by {
            if j < sub.len() {
                assert(merged_idents(units)[j] == sub[j]);
            } else {
                assert(merged_idents(units)[j] == units[units.len() - 1].named_idents.deep_view()[
                    j - sub.len()]);
            }
        }
    }
}

/// The identifiers of a unit built by ingestion all have the capture
/// shapes and passed the registry filter.
pub proof fn lemma_unit_idents_shaped(u: RawSourceCode, file: Seq<char>, texts: Seq<Seq<char>>)
    requires
        unit_from(u, file, texts),
    ensures
        forall|j: int|
            0 <= j < u.named_idents.deep_view().len() ==> ident_ok(
                #[trigger] u.named_idents.deep_view()[j],
            ),
{
    lemma_concat_idents_shaped(texts);
    lemma_dedup_keeps(concat_idents(texts), |w: Seq<char>| ident_ok(w));
    assert forall|j: int| 0 <= j < u.named_idents.deep_view().len() implies ident_ok(
        #[trigger] u.named_idents.deep_view()[j],
    ) by {
        assert((|w: Seq<char>| ident_ok(w))(dedup_first(concat_idents(texts))[j]));
    }
}

/// Every registry entry has the capture shapes and passed the filter,
/// as long as every unit's own identifiers do.
pub proof fn lemma_registry_shaped(units: Seq<RawSourceCode>)
    requires
        forall|u: int, j: int|
            0 <= u < units.len() && 0 <= j < units[u].named_idents.deep_view().len() ==> ident_ok(
                #[trigger] units[u].named_idents.deep_view()[j],
            ),
    ensures
        forall|j: int| 0 <= j < registry_of(units).len() ==> ident_ok(
            #[trigger] registry_of(units)[j],
        ),
{
    let ok = |w: Seq<char>| ident_ok(w);
    lemma_merged_keeps(units, ok);
    lemma_dedup_keeps(merged_idents(units), ok);
    lemma_filter_keeps(dedup_first(merged_idents(units)), ok);
    assert forall|j: int| 0 <= j < registry_of(units).len() implies ident_ok(
        #[trigger] registry_of(units)[j],
    ) by {
        assert(ok(filter_registrable(dedup_first(merged_idents(units)))[j]));
    }
}

/// All the source code of one scan, and the registry derived from it.
#[derive(Debug)]
pub struct SourceTree {
    pub source_files: Vec<RawSourceCode>,
    pub named_idents: Vec<String>,
}

impl SourceTree {
    /// The registry builder: merges every unit's completed identifier
    /// list, deduplicates first-seen, and re-applies the registry filter.
    /// It must only run once every unit's classification is complete.
    pub fn populate_idents(self) -> (r: SourceTree)
        ensures
            r.source_files == self.source_files,
            r.named_idents.deep_view() == registry_of(self.source_files@),
    {
        let mut merged: Vec<String> = Vec::new();
        let mut u: usize = 0;
        proof {
            assert(self.source_files@.take(0) =~= Seq::<RawSourceCode>::empty());
            assert(merged.deep_view() =~= merged_idents(self.source_files@.take(0)));
        }
        while u < self.source_files.len()
            invariant
                u <= self.source_files@.len(),
                merged.deep_view() == merged_idents(self.source_files@.take(u as int)),
            decreases self.source_files@.len() - u,
        {
            proof {
                assert(self.source_files@.take(u + 1).drop_last() =~= self.source_files@.take(
                    u as int,
                ));
                assert(self.source_files@.take(u + 1).last() == self.source_files@[u as int]);
            }
            push_all_strings(&mut merged, &self.source_files[u].named_idents);
            u += 1;
        }
        proof {
            assert(self.source_files@.take(self.source_files@.len() as int)
                =~= self.source_files@);
        }
        let deduped = dedup_strings(&merged);
        let named_idents = filter_strings(&deduped);
        SourceTree { source_files: self.source_files, named_idents }
    }

    /// Builds the whole corpus from `(path, lines)` pairs, one unit per
    /// file, then derives the registry. A file whose read failed is
    /// handed in with no lines and contributes an empty unit.
    pub fn new_from_paths(files: &Vec<(String, Vec<String>)>) -> (st: SourceTree)
        ensures
            st.source_files@.len() == files@.len(),
            forall|i: int|
                0 <= i < files@.len() ==> unit_from(
                    #[trigger] st.source_files@[i],
                    files@[i].0@,
                    files@[i].1.deep_view(),
                ),
            st.named_idents.deep_view() == registry_of(st.source_files@),
    {
        let mut units: Vec<RawSourceCode> = Vec::new();
        let mut i: usize = 0;
        while i < files.len()
            invariant
                i <= files@.len(),
                units@.len() == i,
                forall|k: int|
                    0 <= k < i ==> unit_from(
                        #[trigger] units@[k],
                        files@[k].0@,
                        files@[k].1.deep_view(),
                    ),
            decreases files@.len() - i,
        {
            let pair = &files[i];
            let rsc = RawSourceCode::new_from_file(&pair.0, &pair.1);
            units.push(rsc);
            i += 1;
        }
        let st = SourceTree { source_files: units, named_idents: Vec::new() };
        st.populate_idents()
    }
}

} // verus!
