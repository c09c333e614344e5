//! The pipeline's cross-cutting guarantees, stated and proved over the
//! same specifications the components' own contracts use.
use vstd::prelude::*;
use crate::chars::{
    capture_shaped, contains_at, contains_sub, ident_shaped, is_space_char, is_word_char,
    lemma_prefix_run, lemma_prefix_run_props, marker_of, prefix_run, space_pred, token_pred,
};
use crate::classify::{classify_flavour, classify_idents, spec_is_doc_line, Flavour, RawLine};
use crate::rewrite::{
    eligible, lemma_pass_no_foreign_markers, pass_text, rewrite_text, step_text, AdjustedLine,
};
use crate::idempotence::{ids_independent, tick_free};
use crate::source::{
    adj_view, adjs_view, change_for, concat_idents, ident_ok, line_changed, materialized_line,
    lemma_registry_shaped, registry_of, spec_adjustments, unit_from, RawSourceCode,
};
use crate::tables::{is_stopword, registrable, MIN_IDENT_CHARS};

verus! {

/// No adjustment is keyed by the number of a line the pass leaves alone.
proof fn lemma_adjustments_skip_line(lines: Seq<RawLine>, ids: Seq<Seq<char>>, n: usize)
    requires
        forall|i: int|
            0 <= i < lines.len() ==> ((#[trigger] lines[i]).line_num == n ==> !line_changed(
                lines[i],
                ids,
            )),
    ensures
        forall|j: int|
            0 <= j < spec_adjustments(lines, ids).len() ==> (#[trigger] spec_adjustments(
                lines,
                ids,
            )[j]).0 != n,
    decreases lines.len(),
{
    if lines.len() > 0 {
        assert forall|i: int|
            0 <= i < lines.drop_last().len() && (#[trigger] lines.drop_last()[i]).line_num == n
            implies !line_changed(lines.drop_last()[i], ids) by {
            assert(lines.drop_last()[i] == lines[i]);
        }
        lemma_adjustments_skip_line(lines.drop_last(), ids, n);
        let sub = spec_adjustments(lines.drop_last(), ids);
        assert forall|j: int|
            0 <= j < spec_adjustments(lines, ids).len() implies (#[trigger] spec_adjustments(
            lines,
            ids,
        )[j]).0 != n by {
            if j < sub.len() {
                assert(spec_adjustments(lines, ids)[j] == sub[j]);
            } else {
                assert(line_changed(lines.last(), ids));
                assert(lines[lines.len() - 1].line_num != n);
            }
        }
    }
}

/// An adjustment list that never names a line number holds no
/// replacement for it.
proof fn lemma_change_for_none(changes: Seq<AdjustedLine>, n: usize)
    requires
        forall|j: int| 0 <= j < changes.len() ==> (#[trigger] changes[j]).line_num != n,
    ensures
        change_for(changes, n) is None,
    decreases changes.len(),
{
    if changes.len() > 0 {
        assert(changes[0].line_num != n);
        assert forall|j: int| 0 <= j < changes.drop_first().len() implies (#[trigger] changes
            .drop_first()[j]).line_num != n by {
            assert(changes.drop_first()[j] == changes[j + 1]);
        }
        lemma_change_for_none(changes.drop_first(), n);
    }
}

/// Declaration-line invariance: the materializer's output for a line
/// that is not a doc comment is always the original text — whatever the
/// registry, only doc-comment lines are ever rewritten.
pub proof fn lemma_declaration_line_invariance(
    lines: Seq<RawLine>,
    changes: Seq<AdjustedLine>,
    ids: Seq<Seq<char>>,
    n: usize,
)
    requires
        adjs_view(changes) == spec_adjustments(lines, ids),
        forall|i: int| 0 <= i < lines.len() ==> (#[trigger] lines[i]).line_num == i,
        n < lines.len(),
        lines[n as int].flavour != Flavour::DocComment,
    ensures
        materialized_line(lines, changes, n) == lines[n as int].contents@,
{
    assert forall|i: int|
        0 <= i < lines.len() && (#[trigger] lines[i]).line_num == n implies !line_changed(
        lines[i],
        ids,
    ) by {
        if lines[i].line_num == n {
            assert(i == n);
        }
    }
    lemma_adjustments_skip_line(lines, ids, n);
    assert forall|j: int| 0 <= j < changes.len() implies (#[trigger] changes[j]).line_num
        != n by {
        assert(adjs_view(changes)[j] == adj_view(changes[j]));
        assert(spec_adjustments(lines, ids)[j].0 != n);
    }
    lemma_change_for_none(changes, n);
}

/// The doc-comment sigil stands as a token of its own: after the
/// leading whitespace come exactly three slashes, then whitespace or
/// the end of the line.
pub open spec fn sigil_alone(s: Seq<char>) -> bool {
    let t = s.skip(prefix_run(s, space_pred()) as int);
    &&& spec_is_doc_line(s)
    &&& (t.len() == 3 || is_space_char(t[3]))
}

/// One identifier's rewrite of a doc line whose sigil stands alone
/// leaves it a doc line with its sigil standing alone: no capturable
/// identifier can match the three slashes.
proof fn lemma_rewrite_keeps_doc(s: Seq<char>, id: Seq<char>)
    requires
        sigil_alone(s),
        capture_shaped(id),
        id.len() > 0,
    ensures
        sigil_alone(rewrite_text(s, id)),
    decreases s.len(),
{
    let out = rewrite_text(s, id);
    if is_space_char(s[0]) {
        let d = s.drop_first();
        lemma_prefix_run_props(s, space_pred());
        lemma_prefix_run_props(d, space_pred());
        assert(prefix_run(s, space_pred()) == 1 + prefix_run(d, space_pred()));
        assert(s.skip(prefix_run(s, space_pred()) as int) =~= d.skip(
            prefix_run(d, space_pred()) as int,
        ));
        lemma_rewrite_keeps_doc(d, id);
        let rec = rewrite_text(d, id);
        lemma_prefix_run_props(rec, space_pred());
        assert(out == seq![s[0]] + rec);
        assert(prefix_run(out, space_pred()) == 1 + prefix_run(rec, space_pred())) by {
            assert(out[0] == s[0]);
            assert(out.drop_first() =~= rec);
        }
        assert(out.skip(prefix_run(out, space_pred()) as int) =~= rec.skip(
            prefix_run(rec, space_pred()) as int,
        ));
    } else {
        assert(prefix_run(s, space_pred()) == 0);
        assert(s.skip(0) =~= s);
        assert(s[0] == '/' && s[1] == '/' && s[2] == '/');
        let t = prefix_run(s, token_pred()) as int;
        lemma_prefix_run_props(s, token_pred());
        assert(t == 3) by {
            if s.len() == 3 {
                lemma_prefix_run(s, token_pred(), 3);
            } else {
                assert(is_space_char(s[3]));
                lemma_prefix_run(s, token_pred(), 3);
            }
        }
        let tok = s.take(3);
        assert(!contains_sub(tok, id)) by {
            if contains_sub(tok, id) {
                let p = choose|p: int| contains_at(tok, p, id);
                assert(id[0] == tok.subrange(p, p + id.len() as int)[0]);
                assert(tok[p] == s[p]);
                assert(id[0] == '/');
                assert(is_word_char(id[0]) || id[0] == ';');
                assert(false);
            }
        }
        let rec = rewrite_text(s.skip(3), id);
        assert(out == tok + rec);
        assert(rec.len() == 0 || is_space_char(rec[0])) by {
            if s.skip(3).len() > 0 {
                assert(rec == seq![s.skip(3)[0]] + rewrite_text(s.skip(3).drop_first(), id));
                assert(rec[0] == s.skip(3)[0]);
            }
        }
        assert(out[0] == '/' && out[1] == '/' && out[2] == '/') by {
            assert(out[0] == tok[0] && out[1] == tok[1] && out[2] == tok[2]);
        }
        assert(prefix_run(out, space_pred()) == 0);
        assert(out.skip(0) =~= out);
        if out.len() > 3 {
            assert(out[3] == rec[0]);
        }
    }
}

/// A full pass leaves a doc line whose sigil stands alone a doc line
/// whose sigil stands alone: a re-scan of the rewritten corpus
/// classifies it as before and takes no identifiers from it.
pub proof fn lemma_pass_keeps_doc(s: Seq<char>, ids: Seq<Seq<char>>)
    requires
        sigil_alone(s),
        forall|k: int|
            0 <= k < ids.len() ==> (capture_shaped(#[trigger] ids[k]) && ids[k].len() > 0),
    ensures
        sigil_alone(pass_text(s, ids)),
    decreases ids.len(),
{
    if ids.len() > 0 {
        let s1 = step_text(s, ids[0]);
        assert(sigil_alone(s1)) by {
            if eligible(s, ids[0]) {
                lemma_rewrite_keeps_doc(s, ids[0]);
            }
        }
        assert forall|k: int|
            0 <= k < ids.drop_first().len() implies (capture_shaped(
            #[trigger] ids.drop_first()[k],
        ) && ids.drop_first()[k].len() > 0) by {
            assert(ids.drop_first()[k] == ids[k + 1]);
        }
        lemma_pass_keeps_doc(s1, ids.drop_first());
    }
}

/// Adjustment line numbers are strictly increasing when the lines are
/// numbered by their position.
proof fn lemma_adjustments_increasing(lines: Seq<RawLine>, ids: Seq<Seq<char>>)
    requires
        forall|i: int| 0 <= i < lines.len() ==> (#[trigger] lines[i]).line_num == i,
    ensures
        forall|j: int|
            0 <= j < spec_adjustments(lines, ids).len() ==> (#[trigger] spec_adjustments(
                lines,
                ids,
            )[j]).0 < lines.len(),
        forall|j1: int, j2: int|
            0 <= j1 < j2 < spec_adjustments(lines, ids).len() ==> (#[trigger] spec_adjustments(
                lines,
                ids,
            )[j1]).0 < (#[trigger] spec_adjustments(lines, ids)[j2]).0,
    decreases lines.len(),
{
    if lines.len() > 0 {
        assert forall|i: int| 0 <= i < lines.drop_last().len() implies (#[trigger] lines
            .drop_last()[i]).line_num == i by {
            assert(lines.drop_last()[i] == lines[i]);
        }
        lemma_adjustments_increasing(lines.drop_last(), ids);
        let sub = spec_adjustments(lines.drop_last(), ids);
        let whole = spec_adjustments(lines, ids);
        assert forall|j: int| 0 <= j < whole.len() implies (#[trigger] whole[j]).0
            < lines.len() by {
            if j < sub.len() {
                assert(whole[j] == sub[j]);
            } else {
                assert(line_changed(lines.last(), ids));
                assert(whole[j].0 == lines[lines.len() - 1].line_num);
            }
        }
        assert forall|j1: int, j2: int|
            0 <= j1 < j2 < whole.len() implies (#[trigger] whole[j1]).0 < (
        #[trigger] whole[j2]).0 by {
            if j2 < sub.len() {
                assert(whole[j1] == sub[j1]);
                assert(whole[j2] == sub[j2]);
            } else {
                assert(line_changed(lines.last(), ids));
                assert(whole[j1] == sub[j1]);
                assert(sub[j1].0 < lines.drop_last().len());
                assert(whole[j2].0 == lines[lines.len() - 1].line_num);
            }
        }
    }
}

/// The first adjustment found for a line number is the only one, when
/// the numbers are distinct.
proof fn lemma_change_for_found(changes: Seq<AdjustedLine>, n: usize, j: int)
    requires
        0 <= j < changes.len(),
        changes[j].line_num == n,
        forall|j1: int, j2: int|
            0 <= j1 < j2 < changes.len() ==> (#[trigger] changes[j1]).line_num != (
            #[trigger] changes[j2]).line_num,
    ensures
        change_for(changes, n) == Some(changes[j].contents@),
    decreases changes.len(),
{
    if changes[0].line_num == n {
        assert(j == 0);
    } else {
        assert(j >= 1);
        assert forall|j1: int, j2: int|
            0 <= j1 < j2 < changes.drop_first().len() implies (#[trigger] changes.drop_first()[
        j1]).line_num != (#[trigger] changes.drop_first()[j2]).line_num by {
            assert(changes.drop_first()[j1] == changes[j1 + 1]);
            assert(changes.drop_first()[j2] == changes[j2 + 1]);
        }
        assert(changes.drop_first()[j - 1] == changes[j]);
        lemma_change_for_found(changes.drop_first(), n, j - 1);
    }
}

/// Every changed line has its adjustment.
proof fn lemma_adjustments_complete(lines: Seq<RawLine>, ids: Seq<Seq<char>>, n: int)
    requires
        0 <= n < lines.len(),
        line_changed(lines[n], ids),
    ensures
        exists|j: int|
            0 <= j < spec_adjustments(lines, ids).len() && #[trigger] spec_adjustments(lines, ids)[j]
                == (lines[n].line_num, pass_text(lines[n].contents@, ids), lines[n].source_file@),
    decreases lines.len(),
{
    let whole = spec_adjustments(lines, ids);
    let sub = spec_adjustments(lines.drop_last(), ids);
    if n == lines.len() - 1 {
        assert(whole[sub.len() as int] == (
            lines[n].line_num,
            pass_text(lines[n].contents@, ids),
            lines[n].source_file@,
        ));
    } else {
        assert(lines.drop_last()[n] == lines[n]);
        lemma_adjustments_complete(lines.drop_last(), ids, n);
        let j = choose|j: int|
            0 <= j < sub.len() && #[trigger] sub[j] == (
                lines[n].line_num,
                pass_text(lines[n].contents@, ids),
                lines[n].source_file@,
            );
        assert(whole[j] == sub[j]);
    }
}

/// What the materializer hands out for a doc-comment line: always the
/// full pass of its original text, whether or not the pass changed it.
pub proof fn lemma_materialized_is_pass(
    lines: Seq<RawLine>,
    changes: Seq<AdjustedLine>,
    ids: Seq<Seq<char>>,
    n: usize,
)
    requires
        adjs_view(changes) == spec_adjustments(lines, ids),
        forall|i: int| 0 <= i < lines.len() ==> (#[trigger] lines[i]).line_num == i,
        n < lines.len(),
        lines[n as int].flavour == Flavour::DocComment,
    ensures
        materialized_line(lines, changes, n) == pass_text(lines[n as int].contents@, ids),
{
    if line_changed(lines[n as int], ids) {
        lemma_adjustments_complete(lines, ids, n as int);
        let j = choose|j: int|
            0 <= j < spec_adjustments(lines, ids).len() && #[trigger] spec_adjustments(lines, ids)[j]
                == (
                lines[n as int].line_num,
                pass_text(lines[n as int].contents@, ids),
                lines[n as int].source_file@,
            );
        assert(adjs_view(changes)[j] == adj_view(changes[j]));
        assert(changes[j].line_num == n);
        assert(changes[j].contents@ == pass_text(lines[n as int].contents@, ids));
        lemma_adjustments_increasing(lines, ids);
        assert forall|j1: int, j2: int|
            0 <= j1 < j2 < changes.len() implies (#[trigger] changes[j1]).line_num != (
        #[trigger] changes[j2]).line_num by {
            assert(adjs_view(changes)[j1] == adj_view(changes[j1]));
            assert(adjs_view(changes)[j2] == adj_view(changes[j2]));
            assert(spec_adjustments(lines, ids)[j1].0 < spec_adjustments(lines, ids)[j2].0);
        }
        lemma_change_for_found(changes, n, j);
    } else {
        assert forall|i: int|
            0 <= i < lines.len() && (#[trigger] lines[i]).line_num == n implies !line_changed(
            lines[i],
            ids,
        ) by {
            if lines[i].line_num == n {
                assert(i == n);
            }
        }
        lemma_adjustments_skip_line(lines, ids, n);
        assert forall|j: int| 0 <= j < changes.len() implies (#[trigger] changes[j]).line_num
            != n by {
            assert(adjs_view(changes)[j] == adj_view(changes[j]));
            assert(spec_adjustments(lines, ids)[j].0 != n);
        }
        lemma_change_for_none(changes, n);
    }
}

/// Stopword and length exclusion, registry side: an identifier shorter
/// than the minimum or in the stopword set never enters the registry,
/// however often the corpus declares it.
pub proof fn lemma_registry_excludes(units: Seq<RawSourceCode>, w: Seq<char>)
    requires
        w.len() < MIN_IDENT_CHARS || is_stopword(w),
    ensures
        !registry_of(units).contains(w),
{
    crate::classify::lemma_filter_registrable_entries(
        crate::source::dedup_first(crate::source::merged_idents(units)),
    );
    if registry_of(units).contains(w) {
        let j = choose|j: int| 0 <= j < registry_of(units).len() && registry_of(units)[j] == w;
        assert(registrable(registry_of(units)[j]));
    }
}

/// Stopword and length exclusion, output side: a full registry pass
/// never produces a link marker for an excluded identifier — a marker
/// absent from the line before the pass is absent after it, even where
/// the excluded identifier's text appears verbatim.
pub proof fn lemma_excluded_never_marked(
    units: Seq<RawSourceCode>,
    s: Seq<char>,
    w: Seq<char>,
)
    requires
        w.len() < MIN_IDENT_CHARS || is_stopword(w),
        ident_shaped(w),
        !contains_sub(s, marker_of(w)),
        forall|u: int, j: int|
            0 <= u < units.len() && 0 <= j < units[u].named_idents.deep_view().len() ==> ident_ok(
                #[trigger] units[u].named_idents.deep_view()[j],
            ),
    ensures
        !contains_sub(pass_text(s, registry_of(units)), marker_of(w)),
{
    lemma_registry_shaped(units);
    assert forall|k: int| 0 <= k < registry_of(units).len() implies #[trigger] registry_of(
        units,
    )[k] != w by {
        assert(registrable(registry_of(units)[k]));
    }
    assert forall|k: int| 0 <= k < registry_of(units).len() implies ident_shaped(
        #[trigger] registry_of(units)[k],
    ) by {
        assert(ident_ok(registry_of(units)[k]));
    }
    lemma_pass_no_foreign_markers(s, registry_of(units), w);
}

/// Lines the pass cannot change produce no adjustments at all.
proof fn lemma_adjustments_empty(lines: Seq<RawLine>, ids: Seq<Seq<char>>)
    requires
        forall|i: int| 0 <= i < lines.len() ==> !line_changed(#[trigger] lines[i], ids),
    ensures
        spec_adjustments(lines, ids).len() == 0,
    decreases lines.len(),
{
    if lines.len() > 0 {
        assert forall|i: int| 0 <= i < lines.drop_last().len() implies !line_changed(
            #[trigger] lines.drop_last()[i],
            ids,
        ) by {
            assert(lines.drop_last()[i] == lines[i]);
        }
        lemma_adjustments_empty(lines.drop_last(), ids);
        assert(!line_changed(lines[lines.len() - 1], ids));
    }
}

/// Two line lists whose lines contribute the same identifiers
/// contribute the same concatenation.
proof fn lemma_concat_idents_congruent(a: Seq<Seq<char>>, b: Seq<Seq<char>>)
    requires
        a.len() == b.len(),
        forall|i: int|
            0 <= i < a.len() ==> classify_idents(#[trigger] a[i]) == classify_idents(b[i]),
    ensures
        concat_idents(a) == concat_idents(b),
    decreases a.len(),
{
    if a.len() > 0 {
        assert forall|i: int|
            0 <= i < a.drop_last().len() implies classify_idents(#[trigger] a.drop_last()[i])
            == classify_idents(b.drop_last()[i]) by {
            assert(a.drop_last()[i] == a[i]);
            assert(b.drop_last()[i] == b[i]);
        }
        lemma_concat_idents_congruent(a.drop_last(), b.drop_last());
        assert(classify_idents(a.last()) == classify_idents(b.last()));
    }
}

/// Idempotence of the whole per-unit pipeline: re-ingesting a unit's
/// materialized output gives a unit that contributes the same
/// identifiers, and a second pass with the same registry owes no
/// adjustment for any of its lines. It holds of units whose doc lines
/// carry no backtick of their own and keep their sigil as a token, and
/// of registries in which no identifier contains another.
pub proof fn lemma_unit_pipeline_idempotent(
    u1: RawSourceCode,
    changes: Seq<AdjustedLine>,
    u2: RawSourceCode,
    file: Seq<char>,
    texts1: Seq<Seq<char>>,
    texts2: Seq<Seq<char>>,
    ids: Seq<Seq<char>>,
)
    requires
        unit_from(u1, file, texts1),
        unit_from(u2, file, texts2),
        adjs_view(changes) == spec_adjustments(u1.lines@, ids),
        ids_independent(ids),
        forall|k: int|
            0 <= k < ids.len() ==> (capture_shaped(#[trigger] ids[k]) && ids[k].len() > 0),
        texts2.len() == texts1.len(),
        forall|i: int|
            0 <= i < texts1.len() ==> #[trigger] texts2[i] == materialized_line(
                u1.lines@,
                changes,
                i as usize,
            ),
        forall|i: int|
            0 <= i < texts1.len() && spec_is_doc_line(#[trigger] texts1[i]) ==> (tick_free(
                texts1[i],
            ) && sigil_alone(texts1[i])),
    ensures
        u2.named_idents.deep_view() == u1.named_idents.deep_view(),
        spec_adjustments(u2.lines@, ids).len() == 0,
{
    assert(texts1.len() <= usize::MAX) by {
        assert(u1.total_lines == texts1.len());
    }
    assert forall|i: int| 0 <= i < texts1.len() implies ((spec_is_doc_line(#[trigger] texts1[i])
        ==> (texts2[i] == pass_text(texts1[i], ids) && sigil_alone(texts2[i]))) && (
    !spec_is_doc_line(texts1[i]) ==> texts2[i] == texts1[i])) by {
        let n = i as usize;
        assert(u1.lines@[i].flavour == classify_flavour(texts1[i]));
        assert(u1.lines@[i].contents@ == texts1[i]);
        assert(u1.lines@[i].line_num == i);
        if spec_is_doc_line(texts1[i]) {
            lemma_materialized_is_pass(u1.lines@, changes, ids, n);
            lemma_pass_keeps_doc(texts1[i], ids);
        } else {
            lemma_declaration_line_invariance(u1.lines@, changes, ids, n);
        }
    }
    assert forall|i: int| 0 <= i < texts1.len() implies classify_idents(#[trigger] texts1[i])
        == classify_idents(texts2[i]) by {
        if spec_is_doc_line(texts1[i]) {
            assert(spec_is_doc_line(texts2[i]));
        }
    }
    lemma_concat_idents_congruent(texts1, texts2);
    assert(u2.named_idents.deep_view() == u1.named_idents.deep_view());
    assert forall|i: int| 0 <= i < u2.lines@.len() implies !line_changed(
        #[trigger] u2.lines@[i],
        ids,
    ) by {
        assert(u2.lines@[i].flavour == classify_flavour(texts2[i]));
        assert(u2.lines@[i].contents@ == texts2[i]);
        if u2.lines@[i].flavour == Flavour::DocComment {
            assert(spec_is_doc_line(texts2[i]));
            if spec_is_doc_line(texts1[i]) {
                crate::idempotence::lemma_pass_idempotent(texts1[i], ids);
                assert(pass_text(texts2[i], ids) == texts2[i]);
            } else {
                assert(texts2[i] == texts1[i]);
                assert(false);
            }
        }
    }
    lemma_adjustments_empty(u2.lines@, ids);
}

/// A re-scan of a rewritten corpus classifies a doc line as before: a
/// registry pass over a doc line whose sigil stands alone leaves it a
/// doc line contributing no identifiers, so the second scan's registry
/// is built from the same declaration lines as the first.
pub proof fn lemma_rescan_keeps_doc(units: Seq<RawSourceCode>, s: Seq<char>)
    requires
        sigil_alone(s),
        forall|u: int, j: int|
            0 <= u < units.len() && 0 <= j < units[u].named_idents.deep_view().len() ==> ident_ok(
                #[trigger] units[u].named_idents.deep_view()[j],
            ),
    ensures
        sigil_alone(pass_text(s, registry_of(units))),
{
    lemma_registry_shaped(units);
    assert forall|k: int|
        0 <= k < registry_of(units).len() implies (capture_shaped(
        #[trigger] registry_of(units)[k],
    ) && registry_of(units)[k].len() > 0) by {
        assert(ident_ok(registry_of(units)[k]));
    }
    lemma_pass_keeps_doc(s, registry_of(units));
}

} // verus!
