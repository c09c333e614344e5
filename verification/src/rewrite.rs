//! The rewrite engine.
//!
//! For one identifier, a doc-comment line is eligible when its text
//! mentions the identifier (plainly or with one of the fixed suffixes
//! `s`, `.`, `'s`) and does not already hold it wrapped in backticks —
//! the idempotence guard. An eligible line is rewritten token by token:
//! every whitespace-delimited token that contains the identifier is
//! replaced wholesale by the link marker, every other token and all
//! inter-token whitespace are kept exactly. Identifiers are applied in
//! registry order, each seeing the text the previous one produced.
//!
//! Matching is by containment inside a whitespace-delimited token; beyond
//! the fixed suffix list there is no stemming and no word-boundary rule,
//! a documented source of false positives and negatives that callers must
//! not paper over.
use vstd::prelude::*;
use crate::chars::{
    lemma_contains_lift_left, lemma_contains_lift_right, lemma_contains_of_concat_needle,
    lemma_split_contains, lemma_split_contains_ws_head, no_space,
    chars_of, contains_at, contains_sub, contains_chars, copy_range, is_space_char, marker_of,
    make_marker, make_ticked, prefix_run, push_all, string_of, space_char, ticked, token_pred,
    token_run_end, lemma_prefix_run_props, ident_shaped,
};
use crate::classify::{Flavour, RawLine};

verus! {

/// The line mentions the identifier: plainly, or followed by one of the
/// fixed suffixes covering plural, sentence-terminal and possessive uses.
pub open spec fn mentions(s: Seq<char>, id: Seq<char>) -> bool {
    ||| contains_sub(s, id)
    ||| contains_sub(s, id.push('s'))
    ||| contains_sub(s, id.push('.'))
    ||| contains_sub(s, id + seq!['\'', 's'])
}

/// Eligibility of a line's text for one identifier: it is mentioned, and
/// the backtick-wrapped form is absent (the idempotence guard).
pub open spec fn eligible(s: Seq<char>, id: Seq<char>) -> bool {
    mentions(s, id) && !contains_sub(s, ticked(id))
}

/// One identifier's token-wise rewrite of a text: whitespace passes
/// through, a token containing the identifier becomes the link marker,
/// any other token is kept.
pub open spec fn rewrite_text(s: Seq<char>, id: Seq<char>) -> Seq<char>
    decreases s.len(),
    via rewrite_text_dec
{
    if s.len() == 0 {
        s
    } else if is_space_char(s[0]) {
        seq![s[0]] + rewrite_text(s.drop_first(), id)
    } else {
        let t = prefix_run(s, token_pred()) as int;
        (if contains_sub(s.take(t), id) {
            marker_of(id)
        } else {
            s.take(t)
        }) + rewrite_text(s.skip(t), id)
    }
}

#[via_fn]
proof fn rewrite_text_dec(s: Seq<char>, id: Seq<char>) {
    if s.len() != 0 && !is_space_char(s[0]) {
        lemma_prefix_run_props(s, token_pred());
    }
}

/// What one identifier does to a text: the rewrite when the text is
/// eligible, nothing otherwise.
pub open spec fn step_text(s: Seq<char>, id: Seq<char>) -> Seq<char> {
    if eligible(s, id) {
        rewrite_text(s, id)
    } else {
        s
    }
}

/// A full pass: every identifier applied in order, each seeing the text
/// the previous one left.
pub open spec fn pass_text(s: Seq<char>, ids: Seq<Seq<char>>) -> Seq<char>
    decreases ids.len(),
{
    if ids.len() == 0 {
        s
    } else {
        pass_text(step_text(s, ids[0]), ids.drop_first())
    }
}

/// Some identifier in the list is eligible on this text.
pub open spec fn any_eligible(s: Seq<char>, ids: Seq<Seq<char>>) -> bool {
    exists|k: int| 0 <= k < ids.len() && eligible(s, #[trigger] ids[k])
}

/// Whether the line's text is eligible for the identifier.
pub fn eligible_line(text: &[char], id: &[char]) -> (r: bool)
    ensures
        r == eligible(text@, id@),
{
    let mut with_s = copy_range(id, 0, id.len());
    with_s.push('s');
    let mut with_dot = copy_range(id, 0, id.len());
    with_dot.push('.');
    let mut with_poss = copy_range(id, 0, id.len());
    with_poss.push('\'');
    with_poss.push('s');
    let ticks = make_ticked(id);
    proof {
        assert(id@.subrange(0, id@.len() as int) =~= id@);
        assert(with_s@ =~= id@.push('s'));
        assert(with_dot@ =~= id@.push('.'));
        assert(with_poss@ =~= id@ + seq!['\'', 's']);
    }
    let m = contains_chars(text, id) || contains_chars(text, with_s.as_slice()) || contains_chars(
        text,
        with_dot.as_slice(),
    ) || contains_chars(text, with_poss.as_slice());
    m && !contains_chars(text, ticks.as_slice())
}

/// The token-wise rewrite of a text for one identifier.
pub fn rewrite_with(text: &[char], id: &[char]) -> (out: Vec<char>)
    ensures
        out@ == rewrite_text(text@, id@),
{
    let mut out: Vec<char> = Vec::new();
    let mut i: usize = 0;
    proof {
        assert(text@.skip(0) =~= text@);
        assert(out@ + rewrite_text(text@.skip(0), id@) =~= rewrite_text(text@, id@));
    }
    while i < text.len()
        invariant
            i <= text@.len(),
            rewrite_text(text@, id@) == out@ + rewrite_text(text@.skip(i as int), id@),
        decreases text@.len() - i,
    {
        let ghost rest = text@.skip(i as int);
        if space_char(text[i]) {
            let ghost pre = out@;
            out.push(text[i]);
            proof {
                assert(rest[0] == text@[i as int]);
                assert(rest.drop_first() =~= text@.skip(i + 1));
                assert(pre + (seq![rest[0]] + rewrite_text(rest.drop_first(), id@)) =~= pre.push(
                    rest[0],
                ) + rewrite_text(text@.skip(i + 1), id@));
            }
            i += 1;
        } else {
            let j = token_run_end(text, i);
            let tok = copy_range(text, i, j);
            proof {
                assert(rest[0] == text@[i as int]);
                let t = prefix_run(rest, token_pred()) as int;
                assert forall|k: int| 0 <= k < t implies rest[k] == text@.subrange(
                    i as int,
                    j as int,
                )[k] by {}
                assert(rest.take(t) =~= text@.subrange(i as int, j as int));
                assert(rest.skip(t) =~= text@.skip(j as int));
            }
            let ghost pre = out@;
            if contains_chars(tok.as_slice(), id) {
                let mk = make_marker(id);
                push_all(&mut out, mk.as_slice());
                proof {
                    assert(pre + (marker_of(id@) + rewrite_text(text@.skip(j as int), id@)) =~= (
                    pre + marker_of(id@)) + rewrite_text(text@.skip(j as int), id@));
                }
            } else {
                push_all(&mut out, tok.as_slice());
                proof {
                    assert(pre + (tok@ + rewrite_text(text@.skip(j as int), id@)) =~= (pre + tok@)
                        + rewrite_text(text@.skip(j as int), id@));
                }
            }
            i = j;
        }
    }
    proof {
        assert(text@.skip(text@.len() as int).len() == 0);
        assert(out@ + rewrite_text(text@.skip(i as int), id@) =~= out@);
    }
    out
}

/// One full pass over a line's text: every identifier applied in order,
/// each seeing the text the previous one produced; the input is not
/// touched.
pub fn apply_idents(contents: &String, idents: &Vec<String>) -> (r: String)
    ensures
        r@ == pass_text(contents@, idents.deep_view()),
{
    let ghost ids = idents.deep_view();
    let mut text = chars_of(contents.as_str());
    let mut k: usize = 0;
    proof {
        assert(ids.skip(0) =~= ids);
    }
    while k < idents.len()
        invariant
            k <= idents@.len(),
            ids == idents.deep_view(),
            ids.len() == idents@.len(),
            pass_text(contents@, ids) == pass_text(text@, ids.skip(k as int)),
        decreases idents@.len() - k,
    {
        let id = chars_of(idents[k].as_str());
        proof {
            assert(ids.skip(k as int)[0] == ids[k as int]);
            assert(ids[k as int] == idents@[k as int]@);
            assert(ids.skip(k as int).drop_first() =~= ids.skip(k + 1));
        }
        if eligible_line(text.as_slice(), id.as_slice()) {
            let next = rewrite_with(text.as_slice(), id.as_slice());
            text = next;
        }
        k += 1;
    }
    proof {
        assert(pass_text(text@, ids.skip(ids.len() as int)) == text@);
    }
    string_of(text.as_slice())
}

impl RawLine {
    /// Whether any registry identifier makes this line eligible for a
    /// rewrite: only doc-comment lines ever are.
    pub fn should_be_modified(&self, idents: &Vec<String>) -> (r: bool)
        ensures
            r == (self.flavour == Flavour::DocComment && any_eligible(
                self.contents@,
                idents.deep_view(),
            )),
    {
        if !(self.flavour == Flavour::DocComment) {
            return false;
        }
        let text = chars_of(self.contents.as_str());
        let mut k: usize = 0;
        while k < idents.len()
            invariant
                k <= idents@.len(),
                self.flavour == Flavour::DocComment,
                text@ == self.contents@,
                idents.deep_view().len() == idents@.len(),
                forall|m: int| 0 <= m < k ==> !eligible(self.contents@, #[trigger] idents.deep_view()[m]),
            decreases idents@.len() - k,
        {
            let id = chars_of(idents[k].as_str());
            proof {
                assert(idents.deep_view()[k as int] == idents@[k as int]@);
            }
            if eligible_line(text.as_slice(), id.as_slice()) {
                proof {
                    assert(eligible(self.contents@, idents.deep_view()[k as int]));
                }
                return true;
            }
            k += 1;
        }
        false
    }

    /// Applies every identifier's rewrite in order, each seeing the text
    /// the previous one produced; everything but the text is untouched.
    pub fn process_changes(&mut self, idents: &Vec<String>)
        ensures
            final(self).contents@ == pass_text(old(self).contents@, idents.deep_view()),
            final(self).line_num == old(self).line_num,
            final(self).all_linked == old(self).all_linked,
            final(self).flavour == old(self).flavour,
            final(self).idents == old(self).idents,
            final(self).source_file == old(self).source_file,
    {
        let new_contents = apply_idents(&self.contents, idents);
        self.contents = new_contents;
    }
}

/// Each fixed suffix only extends the identifier, so a mention in any of
/// the four forms is in particular a plain occurrence.
pub proof fn lemma_mentions_contains(s: Seq<char>, id: Seq<char>)
    requires
        mentions(s, id),
    ensures
        contains_sub(s, id),
{
    if contains_sub(s, id.push('s')) {
        assert(id.push('s') =~= id + seq!['s']);
        lemma_contains_of_concat_needle(s, id, seq!['s']);
    } else if contains_sub(s, id.push('.')) {
        assert(id.push('.') =~= id + seq!['.']);
        lemma_contains_of_concat_needle(s, id, seq!['.']);
    } else if contains_sub(s, id + seq!['\'', 's']) {
        lemma_contains_of_concat_needle(s, id, seq!['\'', 's']);
    }
}

/// A rewrite that was given an occurrence to work on leaves the
/// backtick-wrapped identifier behind: some token contains the
/// identifier, and that token becomes the link marker.
pub proof fn lemma_rewrite_hits(s: Seq<char>, id: Seq<char>)
    requires
        contains_sub(s, id),
        id.len() > 0,
        no_space(id),
    ensures
        contains_sub(rewrite_text(s, id), ticked(id)),
    decreases s.len(),
{
    if s.len() == 0 {
        let p = choose|p: int| contains_at(s, p, id);
        assert(false);
    } else if is_space_char(s[0]) {
        let p = choose|p: int| contains_at(s, p, id);
        if p == 0 {
            assert(id[0] == s.subrange(0, id.len() as int)[0]);
            assert(false);
        }
        assert(contains_at(s.drop_first(), p - 1, id)) by {
            assert forall|k: int|
                0 <= k < id.len() implies s.drop_first().subrange(p - 1, p - 1 + id.len() as int)[k]
                == id[k] by {
                assert(s.subrange(p, p + id.len() as int)[k] == id[k]);
            }
            assert(s.drop_first().subrange(p - 1, p - 1 + id.len() as int) =~= id);
        }
        lemma_rewrite_hits(s.drop_first(), id);
        lemma_contains_lift_right(seq![s[0]], rewrite_text(s.drop_first(), id), ticked(id));
    } else {
        let t = prefix_run(s, token_pred()) as int;
        lemma_prefix_run_props(s, token_pred());
        if contains_sub(s.take(t), id) {
            assert(contains_at(marker_of(id), 1, ticked(id))) by {
                assert(marker_of(id).subrange(1, 1 + ticked(id).len() as int) =~= ticked(id));
            }
            lemma_contains_lift_left(marker_of(id), rewrite_text(s.skip(t), id), ticked(id));
        } else {
            assert(s =~= s.take(t) + s.skip(t));
            assert(s.skip(t).len() == 0 || is_space_char(s.skip(t)[0]));
            lemma_split_contains(s.take(t), s.skip(t), id);
            lemma_rewrite_hits(s.skip(t), id);
            lemma_contains_lift_right(s.take(t), rewrite_text(s.skip(t), id), ticked(id));
        }
    }
}

/// Applying one identifier twice is the same as applying it once: an
/// eligible line comes out of its rewrite holding the backtick-wrapped
/// identifier, and the idempotence guard blocks the second application.
pub proof fn lemma_step_idempotent(s: Seq<char>, id: Seq<char>)
    requires
        id.len() > 0,
        no_space(id),
    ensures
        step_text(step_text(s, id), id) == step_text(s, id),
{
    if eligible(s, id) {
        lemma_mentions_contains(s, id);
        lemma_rewrite_hits(s, id);
    }
}

/// A link marker never contains whitespace.
proof fn lemma_marker_no_space(w: Seq<char>)
    requires
        ident_shaped(w),
    ensures
        no_space(marker_of(w)),
        marker_of(w).len() == w.len() + 4,
{
    assert forall|k: int| 0 <= k < marker_of(w).len() implies !is_space_char(
        #[trigger] marker_of(w)[k],
    ) by {
        if 2 <= k < w.len() + 2 {
            assert(marker_of(w)[k] == w[k - 2]);
        }
    }
}

/// One marker inside another: only a marker of the same identifier fits,
/// since `[` and `]` occur nowhere but at a marker's two ends.
proof fn lemma_marker_in_marker(id: Seq<char>, w: Seq<char>)
    requires
        contains_sub(marker_of(id), marker_of(w)),
        ident_shaped(id),
        ident_shaped(w),
    ensures
        w == id,
{
    let p = choose|p: int| contains_at(marker_of(id), p, marker_of(w));
    let mi = marker_of(id);
    let mw = marker_of(w);
    assert(mw[0] == '[');
    assert(mw[mw.len() - 1] == ']');
    assert(mi[p] == mw[0]) by {
        assert(mi.subrange(p, p + mw.len() as int)[0] == mw[0]);
    }
    if p != 0 {
        if 2 <= p < id.len() + 2 {
            assert(mi[p] == id[p - 2]);
        }
        assert(false);
    }
    assert(mi[p + mw.len() - 1] == mw[mw.len() - 1]) by {
        assert(mi.subrange(p, p + mw.len() as int)[mw.len() - 1] == mw[mw.len() - 1]);
    }
    if mw.len() != mi.len() {
        let q = p + mw.len() - 1;
        assert(q < mi.len() - 1);
        if 2 <= q < id.len() + 2 {
            assert(mi[q] == id[q - 2]);
        }
        assert(false);
    }
    assert forall|k: int| 0 <= k < w.len() implies w[k] == id[k] by {
        assert(mi.subrange(p, p + mw.len() as int)[k + 2] == mw[k + 2]);
        assert(mw[k + 2] == w[k]);
        assert(mi[k + 2] == id[k]);
    }
    assert(w =~= id);
}

/// A rewrite for one identifier never produces a link marker for a
/// different one: a marker it did not find in its input can only be its
/// own.
pub proof fn lemma_no_foreign_markers(s: Seq<char>, id: Seq<char>, w: Seq<char>)
    requires
        !contains_sub(s, marker_of(w)),
        w != id,
        ident_shaped(id),
        ident_shaped(w),
    ensures
        !contains_sub(rewrite_text(s, id), marker_of(w)),
    decreases s.len(),
{
    lemma_marker_no_space(w);
    if s.len() == 0 {
    } else if is_space_char(s[0]) {
        assert(s =~= seq![s[0]] + s.drop_first());
        if contains_sub(s.drop_first(), marker_of(w)) {
            lemma_contains_lift_right(seq![s[0]], s.drop_first(), marker_of(w));
            assert(false);
        }
        lemma_no_foreign_markers(s.drop_first(), id, w);
        let out = seq![s[0]] + rewrite_text(s.drop_first(), id);
        if contains_sub(out, marker_of(w)) {
            lemma_split_contains_ws_head(
                seq![s[0]],
                rewrite_text(s.drop_first(), id),
                marker_of(w),
            );
            assert(false);
        }
    } else {
        let t = prefix_run(s, token_pred()) as int;
        lemma_prefix_run_props(s, token_pred());
        assert(s =~= s.take(t) + s.skip(t));
        if contains_sub(s.skip(t), marker_of(w)) {
            lemma_contains_lift_right(s.take(t), s.skip(t), marker_of(w));
            assert(false);
        }
        lemma_no_foreign_markers(s.skip(t), id, w);
        let rec = rewrite_text(s.skip(t), id);
        assert(rec.len() == 0 || is_space_char(rec[0])) by {
            if s.skip(t).len() > 0 {
                assert(rec == seq![s.skip(t)[0]] + rewrite_text(s.skip(t).drop_first(), id));
                assert(rec[0] == s.skip(t)[0]);
            }
        }
        let head = if contains_sub(s.take(t), id) {
            marker_of(id)
        } else {
            s.take(t)
        };
        if contains_sub(head, marker_of(w)) {
            if contains_sub(s.take(t), id) {
                lemma_marker_in_marker(id, w);
            } else {
                lemma_contains_lift_left(s.take(t), s.skip(t), marker_of(w));
            }
            assert(false);
        }
        if contains_sub(head + rec, marker_of(w)) {
            lemma_split_contains(head, rec, marker_of(w));
            assert(false);
        }
    }
}

/// A full pass never produces a link marker for an identifier outside
/// its list: a marker absent from the input and belonging to none of the
/// applied identifiers is absent from the output.
pub proof fn lemma_pass_no_foreign_markers(s: Seq<char>, ids: Seq<Seq<char>>, w: Seq<char>)
    requires
        !contains_sub(s, marker_of(w)),
        ident_shaped(w),
        forall|k: int| 0 <= k < ids.len() ==> ident_shaped(#[trigger] ids[k]),
        forall|k: int| 0 <= k < ids.len() ==> #[trigger] ids[k] != w,
    ensures
        !contains_sub(pass_text(s, ids), marker_of(w)),
    decreases ids.len(),
{
    if ids.len() > 0 {
        let s1 = step_text(s, ids[0]);
        if eligible(s, ids[0]) {
            lemma_no_foreign_markers(s, ids[0], w);
        }
        assert forall|k: int| 0 <= k < ids.drop_first().len() implies ident_shaped(
            #[trigger] ids.drop_first()[k],
        ) && ids.drop_first()[k] != w by {
            assert(ids.drop_first()[k] == ids[k + 1]);
        }
        lemma_pass_no_foreign_markers(s1, ids.drop_first(), w);
    }
}

/// A line whose contents the rewrite engine has replaced, keyed by the
/// line number it takes in its unit.
#[derive(PartialEq, Eq, Debug, Clone)]
pub struct AdjustedLine {
    pub line_num: usize,
    pub contents: String,
    pub source_file: String,
}

impl From<RawLine> for AdjustedLine {
    fn from(line: RawLine) -> (r: Self) {
        AdjustedLine { line_num: line.line_num, contents: line.contents, source_file: line.source_file }
    }
}

impl vstd::std_specs::convert::FromSpecImpl<RawLine> for AdjustedLine {
    open spec fn obeys_from_spec() -> bool {
        true
    }

    open spec fn from_spec(line: RawLine) -> Self {
        AdjustedLine {
            line_num: line.line_num,
            contents: line.contents,
            source_file: line.source_file,
        }
    }
}

} // verus!
