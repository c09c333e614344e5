//! Idempotence of the rewrite pass.
//!
//! Running the full registry pass a second time over its own output
//! changes nothing: every inserted link marker carries the
//! backtick-wrapped identifier that makes its line ineligible for that
//! identifier from then on. The law is proved here for lines that hold
//! no backtick of their own and for identifier lists in which no entry
//! contains another: a stray backtick in the input can make the first
//! pass swallow another identifier's guard, and the proof leans on
//! markers never containing foreign identifiers.
use vstd::prelude::*;
use crate::chars::{
    contains_at, contains_sub, ident_shaped, is_space_char, lemma_contains_lift_left,
    lemma_contains_lift_right, lemma_prefix_run_props, lemma_split_contains, marker_of, no_space,
    prefix_run, ticked, token_pred,
};
use crate::rewrite::{
    eligible, lemma_mentions_contains, mentions, pass_text, rewrite_text, step_text,
};

verus! {

/// The text holds no backtick at all.
pub open spec fn tick_free(s: Seq<char>) -> bool {
    forall|p: int| 0 <= p < s.len() ==> s[p] != '`'
}

/// No identifier of the list occurs inside another; in particular all
/// are distinct.
pub open spec fn ids_independent(ids: Seq<Seq<char>>) -> bool {
    &&& forall|k: int| 0 <= k < ids.len() ==> ident_shaped(#[trigger] ids[k])
    &&& forall|k: int, m: int|
        0 <= k < ids.len() && 0 <= m < ids.len() && k != m ==> !contains_sub(
            #[trigger] ids[k],
            #[trigger] ids[m],
        )
}

/// A link marker standing as a whole token: the occurrence is bounded
/// by whitespace or the ends of the text.
pub open spec fn marker_token_at(s: Seq<char>, q: int, w: Seq<char>) -> bool {
    &&& contains_at(s, q, marker_of(w))
    &&& (q == 0 || is_space_char(s[q - 1]))
    &&& (q + marker_of(w).len() == s.len() || is_space_char(s[q + marker_of(w).len()]))
}

/// Some whole token of the text is the identifier's link marker.
pub open spec fn token_marker(s: Seq<char>, w: Seq<char>) -> bool {
    exists|q: int| marker_token_at(s, q, w)
}

/// An occurrence inside an occurrence, composed.
proof fn lemma_contains_at_trans(s: Seq<char>, q: int, big: Seq<char>, r: int, small: Seq<char>)
    requires
        contains_at(s, q, big),
        contains_at(big, r, small),
    ensures
        contains_at(s, q + r, small),
{
    assert forall|k: int| 0 <= k < small.len() implies s.subrange(
        q + r,
        q + r + small.len() as int,
    )[k] == small[k] by {
        assert(big.subrange(r, r + small.len() as int)[k] == small[k]);
        assert(s.subrange(q, q + big.len() as int)[r + k] == big[r + k]);
    }
    assert(s.subrange(q + r, q + r + small.len() as int) =~= small);
}

/// Every sequence occurs in itself.
proof fn lemma_contains_self(x: Seq<char>)
    ensures
        contains_sub(x, x),
{
    assert(contains_at(x, 0, x)) by {
        assert(x.subrange(0, x.len() as int) =~= x);
    }
}

/// A text that holds a backtick-wrapped identifier holds a backtick.
proof fn lemma_ticked_has_tick(s: Seq<char>, w: Seq<char>)
    requires
        contains_sub(s, ticked(w)),
    ensures
        exists|p: int| 0 <= p < s.len() && s[p] == '`',
{
    let q = choose|q: int| contains_at(s, q, ticked(w));
    assert(s.subrange(q, q + ticked(w).len() as int)[0] == ticked(w)[0]);
    assert(s[q] == '`');
}

/// A backtick-wrapped identifier inside a link marker: only the
/// marker's own identifier fits between its two backticks.
proof fn lemma_ticked_in_marker(id: Seq<char>, w: Seq<char>)
    requires
        contains_sub(marker_of(id), ticked(w)),
        ident_shaped(id),
        ident_shaped(w),
    ensures
        w == id,
{
    let p = choose|p: int| contains_at(marker_of(id), p, ticked(w));
    let mi = marker_of(id);
    let tw = ticked(w);
    assert(mi[p] == tw[0]) by {
        assert(mi.subrange(p, p + tw.len() as int)[0] == tw[0]);
    }
    assert(mi[p + tw.len() - 1] == tw[tw.len() - 1]) by {
        assert(mi.subrange(p, p + tw.len() as int)[tw.len() - 1] == tw[tw.len() - 1]);
    }
    assert(tw[0] == '`');
    assert(tw[tw.len() - 1] == '`');
    assert forall|r: int| 0 <= r < mi.len() && mi[r] == '`' implies (r == 1 || r == id.len()
        + 2) by {
        if 2 <= r < id.len() + 2 {
            assert(mi[r] == id[r - 2]);
        }
    }
    if p != 1 {
        assert(p == id.len() + 2);
        assert(p + tw.len() - 1 == id.len() + 2 + w.len() + 1);
        assert(false);
    }
    assert(p + tw.len() - 1 == id.len() + 2);
    assert(w.len() == id.len());
    assert forall|k: int| 0 <= k < w.len() implies w[k] == id[k] by {
        assert(mi.subrange(p, p + tw.len() as int)[k + 1] == tw[k + 1]);
        assert(tw[k + 1] == w[k]);
        assert(mi[1 + k + 1] == id[k]);
    }
    assert(w =~= id);
}

/// A bare identifier inside a link marker lies between the backticks,
/// so it occurs in the marker's own identifier.
proof fn lemma_ident_in_marker(id: Seq<char>, w: Seq<char>)
    requires
        contains_sub(marker_of(id), w),
        ident_shaped(id),
        ident_shaped(w),
    ensures
        contains_sub(id, w),
{
    let p = choose|p: int| contains_at(marker_of(id), p, w);
    let mi = marker_of(id);
    assert forall|k: int| 0 <= k < w.len() implies w[k] == mi[p + k] by {
        assert(mi.subrange(p, p + w.len() as int)[k] == w[k]);
    }
    assert(w[0] != '[' && w[0] != '`');
    assert(mi[0] == '[' && mi[1] == '`');
    assert(w[w.len() - 1] != ']' && w[w.len() - 1] != '`');
    assert(mi[mi.len() - 1] == ']' && mi[mi.len() - 2] == '`');
    assert(p >= 2);
    assert(p + w.len() <= id.len() + 2);
    assert(contains_at(id, p - 2, w)) by {
        assert forall|k: int| 0 <= k < w.len() implies id.subrange(
            p - 2,
            p - 2 + w.len() as int,
        )[k] == w[k] by {
            assert(mi[p + k] == id[p + k - 2]);
        }
        assert(id.subrange(p - 2, p - 2 + w.len() as int) =~= w);
    }
}

/// Where a whitespace-free needle in a rewrite's output comes from: the
/// input, or the one marker the rewrite inserts.
proof fn lemma_rewrite_needle_origin(s: Seq<char>, id: Seq<char>, x: Seq<char>)
    requires
        contains_sub(rewrite_text(s, id), x),
        no_space(x),
        x.len() > 0,
    ensures
        contains_sub(s, x) || contains_sub(marker_of(id), x),
    decreases s.len(),
{
    if s.len() == 0 {
    } else if is_space_char(s[0]) {
        let rec = rewrite_text(s.drop_first(), id);
        assert(rewrite_text(s, id) == seq![s[0]] + rec);
        lemma_split_contains_one_ws(seq![s[0]], rec, x);
        lemma_rewrite_needle_origin(s.drop_first(), id, x);
        if contains_sub(s.drop_first(), x) {
            assert(s =~= seq![s[0]] + s.drop_first());
            lemma_contains_lift_right(seq![s[0]], s.drop_first(), x);
        }
    } else {
        let t = prefix_run(s, token_pred()) as int;
        lemma_prefix_run_props(s, token_pred());
        let head = if contains_sub(s.take(t), id) {
            marker_of(id)
        } else {
            s.take(t)
        };
        let rec = rewrite_text(s.skip(t), id);
        assert(rewrite_text(s, id) == head + rec);
        assert(rec.len() == 0 || is_space_char(rec[0])) by {
            if s.skip(t).len() > 0 {
                assert(rec == seq![s.skip(t)[0]] + rewrite_text(s.skip(t).drop_first(), id));
                assert(rec[0] == s.skip(t)[0]);
            }
        }
        lemma_split_contains(head, rec, x);
        if contains_sub(head, x) {
            if !contains_sub(s.take(t), id) {
                assert(s =~= s.take(t) + s.skip(t));
                lemma_contains_lift_left(s.take(t), s.skip(t), x);
            }
        } else {
            lemma_rewrite_needle_origin(s.skip(t), id, x);
            if contains_sub(s.skip(t), x) {
                assert(s =~= s.take(t) + s.skip(t));
                lemma_contains_lift_right(s.take(t), s.skip(t), x);
            }
        }
    }
}

/// A whitespace-free needle cannot stand on a single whitespace
/// character, so it lies wholly right of it.
proof fn lemma_split_contains_one_ws(a: Seq<char>, b: Seq<char>, x: Seq<char>)
    requires
        contains_sub(a + b, x),
        no_space(x),
        x.len() > 0,
        a.len() == 1,
        is_space_char(a[0]),
    ensures
        contains_sub(b, x),
{
    assert(forall|k: int| 0 <= k < a.len() ==> is_space_char(#[trigger] a[k]));
    crate::chars::lemma_split_contains_ws_head(a, b, x);
}

/// A whole-token marker, found past a leading whitespace character,
/// lifts over it.
proof fn lemma_lift_marker_ws_char(c: char, b: Seq<char>, w: Seq<char>)
    requires
        is_space_char(c),
        token_marker(b, w),
    ensures
        token_marker(seq![c] + b, w),
{
    let q = choose|q: int| marker_token_at(b, q, w);
    let s = seq![c] + b;
    assert(contains_at(s, q + 1, marker_of(w))) by {
        assert(s.subrange(q + 1, q + 1 + marker_of(w).len() as int) =~= b.subrange(
            q,
            q + marker_of(w).len() as int,
        ));
    }
    assert(marker_token_at(s, q + 1, w)) by {
        if q == 0 {
            assert(s[0] == c);
        } else {
            assert(s[q] == b[q - 1]);
        }
        if q + marker_of(w).len() < b.len() {
            assert(s[q + 1 + marker_of(w).len()] == b[q + marker_of(w).len()]);
        }
    }
}

/// A whole-token marker inside the right part lifts over any left part,
/// as long as the right part opens with whitespace.
proof fn lemma_lift_marker_right(a: Seq<char>, b: Seq<char>, w: Seq<char>)
    requires
        token_marker(b, w),
        b.len() > 0,
        is_space_char(b[0]),
        ident_shaped(w),
    ensures
        token_marker(a + b, w),
{
    let q = choose|q: int| marker_token_at(b, q, w);
    let s = a + b;
    assert(marker_of(w)[0] == '[');
    if q == 0 {
        assert(b.subrange(0, marker_of(w).len() as int)[0] == b[0]);
        assert(false);
    }
    assert(contains_at(s, a.len() + q, marker_of(w))) by {
        assert(s.subrange(a.len() + q, a.len() + q + marker_of(w).len() as int) =~= b.subrange(
            q,
            q + marker_of(w).len() as int,
        ));
    }
    assert(marker_token_at(s, a.len() + q, w)) by {
        assert(s[a.len() + q - 1] == b[q - 1]);
        if q + marker_of(w).len() < b.len() {
            assert(s[a.len() + q + marker_of(w).len()] == b[q + marker_of(w).len()]);
        }
    }
}

/// A rewrite that found an occurrence to replace leaves its own marker
/// standing as a whole token.
proof fn lemma_rewrite_makes_token_marker(s: Seq<char>, id: Seq<char>)
    requires
        contains_sub(s, id),
        ident_shaped(id),
    ensures
        token_marker(rewrite_text(s, id), id),
    decreases s.len(),
{
    if s.len() == 0 {
        let p = choose|p: int| contains_at(s, p, id);
        assert(false);
    } else if is_space_char(s[0]) {
        let p = choose|p: int| contains_at(s, p, id);
        if p == 0 {
            assert(id[0] == s.subrange(0, id.len() as int)[0]);
            assert(false);
        }
        assert(contains_at(s.drop_first(), p - 1, id)) by {
            assert(s.drop_first().subrange(p - 1, p - 1 + id.len() as int) =~= s.subrange(
                p,
                p + id.len() as int,
            ));
        }
        lemma_rewrite_makes_token_marker(s.drop_first(), id);
        lemma_lift_marker_ws_char(s[0], rewrite_text(s.drop_first(), id), id);
        assert(rewrite_text(s, id) == seq![s[0]] + rewrite_text(s.drop_first(), id));
    } else {
        let t = prefix_run(s, token_pred()) as int;
        lemma_prefix_run_props(s, token_pred());
        let rec = rewrite_text(s.skip(t), id);
        assert(rec.len() == 0 || is_space_char(rec[0])) by {
            if s.skip(t).len() > 0 {
                assert(rec == seq![s.skip(t)[0]] + rewrite_text(s.skip(t).drop_first(), id));
                assert(rec[0] == s.skip(t)[0]);
            }
        }
        if contains_sub(s.take(t), id) {
            let out = marker_of(id) + rec;
            assert(rewrite_text(s, id) == out);
            assert(contains_at(out, 0, marker_of(id))) by {
                assert(out.subrange(0, marker_of(id).len() as int) =~= marker_of(id));
            }
            assert(marker_token_at(out, 0, id)) by {
                if marker_of(id).len() < out.len() {
                    assert(out[marker_of(id).len() as int] == rec[0]);
                }
            }
        } else {
            assert(s =~= s.take(t) + s.skip(t));
            lemma_split_contains(s.take(t), s.skip(t), id);
            lemma_rewrite_makes_token_marker(s.skip(t), id);
            assert(rewrite_text(s, id) == s.take(t) + rec);
            assert(rec.len() > 0) by {
                let p = choose|p: int| contains_at(s.skip(t), p, id);
            }
            lemma_lift_marker_right(s.take(t), rec, id);
        }
    }
}

/// A whole-token marker that the rewrite's identifier cannot match
/// survives the rewrite as a whole token.
proof fn lemma_rewrite_keeps_token_marker(s: Seq<char>, id: Seq<char>, w: Seq<char>)
    requires
        token_marker(s, w),
        !contains_sub(marker_of(w), id),
        ident_shaped(id),
        ident_shaped(w),
    ensures
        token_marker(rewrite_text(s, id), w),
    decreases s.len(),
{
    let q = choose|q: int| marker_token_at(s, q, w);
    let mlen = marker_of(w).len() as int;
    assert(marker_of(w)[0] == '[');
    if s.len() == 0 {
        assert(false);
    } else if is_space_char(s[0]) {
        if q == 0 {
            assert(s.subrange(0, mlen)[0] == s[0]);
            assert(false);
        }
        assert(marker_token_at(s.drop_first(), q - 1, w)) by {
            assert(s.drop_first().subrange(q - 1, q - 1 + mlen) =~= s.subrange(q, q + mlen));
            if q - 1 > 0 {
                assert(s.drop_first()[q - 2] == s[q - 1]);
            }
            if q - 1 + mlen < s.drop_first().len() {
                assert(s.drop_first()[q - 1 + mlen] == s[q + mlen]);
            }
        }
        lemma_rewrite_keeps_token_marker(s.drop_first(), id, w);
        lemma_lift_marker_ws_char(s[0], rewrite_text(s.drop_first(), id), w);
        assert(rewrite_text(s, id) == seq![s[0]] + rewrite_text(s.drop_first(), id));
    } else {
        let t = prefix_run(s, token_pred()) as int;
        lemma_prefix_run_props(s, token_pred());
        let rec = rewrite_text(s.skip(t), id);
        assert(rec.len() == 0 || is_space_char(rec[0])) by {
            if s.skip(t).len() > 0 {
                assert(rec == seq![s.skip(t)[0]] + rewrite_text(s.skip(t).drop_first(), id));
                assert(rec[0] == s.skip(t)[0]);
            }
        }
        if q < t {
            // the marker must be exactly the head token
            assert forall|k: int| 0 <= k < mlen implies s[q + k] == marker_of(w)[k] by {
                assert(s.subrange(q, q + mlen)[k] == marker_of(w)[k]);
            }
            if q > 0 {
                assert(!is_space_char(s[q - 1]));
                assert(false);
            }
            if q + mlen < t {
                assert(!is_space_char(s[q + mlen]));
                assert(false);
            }
            if q + mlen > t {
                assert(s[t] == marker_of(w)[t - q]);
                assert(is_space_char(s[t]) || t == s.len());
                assert(no_space(marker_of(w))) by {
                    assert forall|k: int| 0 <= k < mlen implies !is_space_char(
                        #[trigger] marker_of(w)[k],
                    ) by {
                        if 2 <= k < w.len() + 2 {
                            assert(marker_of(w)[k] == w[k - 2]);
                        }
                    }
                }
                assert(false);
            }
            assert(q == 0 && q + mlen == t);
            assert(s.take(t) =~= marker_of(w));
            if contains_sub(s.take(t), id) {
                assert(false);
            }
            let out = s.take(t) + rec;
            assert(rewrite_text(s, id) == out);
            assert(contains_at(out, 0, marker_of(w))) by {
                assert(out.subrange(0, mlen) =~= s.take(t));
            }
            assert(marker_token_at(out, 0, w)) by {
                if mlen < out.len() {
                    assert(out[mlen] == rec[0]);
                }
            }
        } else {
            if q == t {
                assert(!is_space_char(s[q - 1])) by {
                    assert(q - 1 == t - 1);
                }
                assert(false);
            }
            assert(marker_token_at(s.skip(t), q - t, w)) by {
                assert(s.skip(t).subrange(q - t, q - t + mlen) =~= s.subrange(q, q + mlen));
                assert(s.skip(t)[q - t - 1] == s[q - 1]);
                if q - t + mlen < s.skip(t).len() {
                    assert(s.skip(t)[q - t + mlen] == s[q + mlen]);
                }
            }
            lemma_rewrite_keeps_token_marker(s.skip(t), id, w);
            let head = if contains_sub(s.take(t), id) {
                marker_of(id)
            } else {
                s.take(t)
            };
            assert(rewrite_text(s, id) == head + rec);
            assert(rec.len() > 0) by {
                let r = choose|r: int| marker_token_at(rewrite_text(s.skip(t), id), r, w);
            }
            lemma_lift_marker_right(head, rec, w);
        }
    }
}

/// A pass over identifiers none of which is eligible changes nothing.
proof fn lemma_pass_noop(t: Seq<char>, ids: Seq<Seq<char>>)
    requires
        forall|k: int| 0 <= k < ids.len() ==> !eligible(t, #[trigger] ids[k]),
    ensures
        pass_text(t, ids) == t,
    decreases ids.len(),
{
    if ids.len() > 0 {
        assert(step_text(t, ids[0]) == t);
        assert forall|k: int| 0 <= k < ids.drop_first().len() implies !eligible(
            t,
            #[trigger] ids.drop_first()[k],
        ) by {
            assert(ids.drop_first()[k] == ids[k + 1]);
        }
        lemma_pass_noop(t, ids.drop_first());
    }
}

/// A whole-token marker survives a pass none of whose identifiers can
/// match inside it.
proof fn lemma_pass_keeps_token_marker(t: Seq<char>, ids: Seq<Seq<char>>, w: Seq<char>)
    requires
        token_marker(t, w),
        ident_shaped(w),
        forall|k: int| 0 <= k < ids.len() ==> ident_shaped(#[trigger] ids[k]),
        forall|k: int| 0 <= k < ids.len() ==> !contains_sub(marker_of(w), #[trigger] ids[k]),
    ensures
        token_marker(pass_text(t, ids), w),
    decreases ids.len(),
{
    if ids.len() > 0 {
        let t1 = step_text(t, ids[0]);
        if eligible(t, ids[0]) {
            lemma_rewrite_keeps_token_marker(t, ids[0], w);
        }
        assert forall|k: int|
            0 <= k < ids.drop_first().len() implies (ident_shaped(#[trigger] ids.drop_first()[k])
            && !contains_sub(marker_of(w), ids.drop_first()[k])) by {
            assert(ids.drop_first()[k] == ids[k + 1]);
        }
        lemma_pass_keeps_token_marker(t1, ids.drop_first(), w);
    }
}

/// A text holding a whole-token marker holds a backtick.
proof fn lemma_token_marker_has_tick(t: Seq<char>, w: Seq<char>)
    requires
        token_marker(t, w),
    ensures
        exists|p: int| 0 <= p < t.len() && t[p] == '`',
{
    let q = choose|q: int| marker_token_at(t, q, w);
    assert(t.subrange(q, q + marker_of(w).len() as int)[1] == marker_of(w)[1]);
    assert(t[q + 1] == '`');
}

/// On a line without backticks of its own, the pass changes the text
/// exactly when some identifier is eligible on it: the first eligible
/// identifier leaves a marker, whose backticks nothing can erase.
pub proof fn lemma_eligibility_means_change(s: Seq<char>, ids: Seq<Seq<char>>)
    requires
        tick_free(s),
        ids_independent(ids),
    ensures
        (exists|k: int| 0 <= k < ids.len() && eligible(s, #[trigger] ids[k])) <==> pass_text(
            s,
            ids,
        ) != s,
    decreases ids.len(),
{
    if ids.len() == 0 {
    } else {
        let id = ids[0];
        assert forall|k: int| 0 <= k < ids.drop_first().len() implies ident_shaped(
            #[trigger] ids.drop_first()[k],
        ) by {
            assert(ids.drop_first()[k] == ids[k + 1]);
        }
        assert forall|k: int, m: int|
            0 <= k < ids.drop_first().len() && 0 <= m < ids.drop_first().len() && k
                != m implies !contains_sub(
            #[trigger] ids.drop_first()[k],
            #[trigger] ids.drop_first()[m],
        ) by {
            assert(ids.drop_first()[k] == ids[k + 1]);
            assert(ids.drop_first()[m] == ids[m + 1]);
        }
        if eligible(s, id) {
            lemma_mentions_contains(s, id);
            lemma_rewrite_makes_token_marker(s, id);
            let t1 = rewrite_text(s, id);
            assert(step_text(s, id) == t1);
            assert forall|k: int|
                0 <= k < ids.drop_first().len() implies !contains_sub(
                marker_of(id),
                #[trigger] ids.drop_first()[k],
            ) by {
                assert(ids.drop_first()[k] == ids[k + 1]);
                if contains_sub(marker_of(id), ids[k + 1]) {
                    lemma_ident_in_marker(id, ids[k + 1]);
                    assert(contains_sub(ids[0], ids[k + 1]));
                    assert(false);
                }
            }
            lemma_pass_keeps_token_marker(t1, ids.drop_first(), id);
            lemma_token_marker_has_tick(pass_text(t1, ids.drop_first()), id);
            assert(pass_text(s, ids) == pass_text(t1, ids.drop_first()));
            assert(pass_text(s, ids) != s);
        } else {
            assert(step_text(s, id) == s);
            assert(pass_text(s, ids) == pass_text(s, ids.drop_first()));
            lemma_eligibility_means_change(s, ids.drop_first());
            if exists|k: int| 0 <= k < ids.len() && eligible(s, #[trigger] ids[k]) {
                let k = choose|k: int| 0 <= k < ids.len() && eligible(s, #[trigger] ids[k]);
                assert(k != 0);
                assert(ids.drop_first()[k - 1] == ids[k]);
                assert(exists|m: int|
                    0 <= m < ids.drop_first().len() && eligible(
                        s,
                        #[trigger] ids.drop_first()[m],
                    ));
            }
            if exists|m: int|
                0 <= m < ids.drop_first().len() && eligible(s, #[trigger] ids.drop_first()[m]) {
                let m = choose|m: int|
                    0 <= m < ids.drop_first().len() && eligible(s, #[trigger] ids.drop_first()[m]);
                assert(ids.drop_first()[m] == ids[m + 1]);
                assert(eligible(s, ids[m + 1]));
            }
        }
    }
}

/// The pass's running state: every identifier already applied is either
/// absent from the text or standing in its own whole-token marker, and
/// every backtick-wrapped word in the text belongs to an identifier
/// already applied.
spec fn pass_inv(t: Seq<char>, done: Seq<Seq<char>>) -> bool {
    &&& forall|j: int|
        0 <= j < done.len() ==> (!contains_sub(t, #[trigger] done[j]) || token_marker(
            t,
            done[j],
        ))
    &&& forall|w: Seq<char>|
        ident_shaped(w) && #[trigger] contains_sub(t, ticked(w)) ==> exists|j: int|
            0 <= j < done.len() && #[trigger] done[j] == w
}

/// One step of the pass maintains the invariant.
proof fn lemma_step_inv(t: Seq<char>, all: Seq<Seq<char>>, k: int)
    requires
        0 <= k < all.len(),
        ids_independent(all),
        pass_inv(t, all.take(k)),
    ensures
        pass_inv(step_text(t, all[k]), all.take(k + 1)),
{
    let id = all[k];
    let t1 = step_text(t, id);
    assert(all.take(k + 1)[k] == id);
    assert(forall|j: int| 0 <= j < k ==> all.take(k + 1)[j] == #[trigger] all.take(k)[j]);
    if !eligible(t, id) {
        assert(t1 == t);
        // the guard cannot have fired: a wrapped copy of `id` would
        // belong to an earlier, distinct identifier
        if contains_sub(t, ticked(id)) {
            let j = choose|j: int| 0 <= j < all.take(k).len() && all.take(k)[j] == id;
            lemma_contains_self(id);
            assert(contains_sub(all[j], all[k]));
            assert(false);
        }
        assert(!mentions(t, id) ==> !contains_sub(t, id));
        assert forall|j: int|
            0 <= j < all.take(k + 1).len() implies (!contains_sub(
            t1,
            #[trigger] all.take(k + 1)[j],
        ) || token_marker(t1, all.take(k + 1)[j])) by {
            if j < k {
                assert(all.take(k)[j] == all.take(k + 1)[j]);
            }
        }
    } else {
        lemma_mentions_contains(t, id);
        lemma_rewrite_makes_token_marker(t, id);
        assert(t1 == rewrite_text(t, id));
        assert forall|j: int|
            0 <= j < all.take(k + 1).len() implies (!contains_sub(
            t1,
            #[trigger] all.take(k + 1)[j],
        ) || token_marker(t1, all.take(k + 1)[j])) by {
            if j < k {
                let idj = all[j];
                assert(all.take(k)[j] == idj);
                if !contains_sub(t, idj) {
                    if contains_sub(t1, idj) {
                        lemma_rewrite_needle_origin(t, id, idj);
                        lemma_ident_in_marker(id, idj);
                        assert(contains_sub(all[k], all[j]));
                        assert(false);
                    }
                } else {
                    assert(token_marker(t, idj));
                    if contains_sub(marker_of(idj), id) {
                        lemma_ident_in_marker(idj, id);
                        assert(contains_sub(all[j], all[k]));
                        assert(false);
                    }
                    lemma_rewrite_keeps_token_marker(t, id, idj);
                }
            }
        }
        assert forall|w: Seq<char>|
            ident_shaped(w) && #[trigger] contains_sub(t1, ticked(w)) implies exists|j: int|
            0 <= j < all.take(k + 1).len() && #[trigger] all.take(k + 1)[j] == w by {
            assert(no_space(ticked(w))) by {
                assert forall|r: int| 0 <= r < ticked(w).len() implies !is_space_char(
                    #[trigger] ticked(w)[r],
                ) by {
                    if 1 <= r < w.len() + 1 {
                        assert(ticked(w)[r] == w[r - 1]);
                    }
                }
            }
            lemma_rewrite_needle_origin(t, id, ticked(w));
            if contains_sub(t, ticked(w)) {
                let j = choose|j: int| 0 <= j < all.take(k).len() && all.take(k)[j] == w;
                assert(all.take(k + 1)[j] == w);
            } else {
                lemma_ticked_in_marker(id, w);
                assert(all.take(k + 1)[k] == w);
            }
        }
    }
    if !eligible(t, id) {
        assert forall|w: Seq<char>|
            ident_shaped(w) && #[trigger] contains_sub(t1, ticked(w)) implies exists|j: int|
            0 <= j < all.take(k + 1).len() && #[trigger] all.take(k + 1)[j] == w by {
            let j = choose|j: int| 0 <= j < all.take(k).len() && all.take(k)[j] == w;
            assert(all.take(k + 1)[j] == w);
        }
    }
}

/// Running the rest of the pass from a state that satisfies the
/// invariant ends in a state that satisfies it for every identifier.
proof fn lemma_pass_inv_all(t: Seq<char>, all: Seq<Seq<char>>, k: int)
    requires
        0 <= k <= all.len(),
        ids_independent(all),
        pass_inv(t, all.take(k)),
    ensures
        pass_inv(pass_text(t, all.skip(k)), all),
    decreases all.len() - k,
{
    if k == all.len() {
        assert(all.skip(k).len() == 0);
        assert(all.take(k) =~= all);
    } else {
        lemma_step_inv(t, all, k);
        let t1 = step_text(t, all[k]);
        assert(all.skip(k)[0] == all[k]);
        assert(all.skip(k).drop_first() =~= all.skip(k + 1));
        assert(pass_text(t, all.skip(k)) == pass_text(t1, all.skip(k + 1)));
        lemma_pass_inv_all(t1, all, k + 1);
    }
}

/// Idempotence: over a line that holds no backtick of its own, and a
/// registry in which no identifier contains another, running the full
/// rewrite pass a second time reproduces the first pass's output
/// exactly.
pub proof fn lemma_pass_idempotent(s: Seq<char>, ids: Seq<Seq<char>>)
    requires
        tick_free(s),
        ids_independent(ids),
    ensures
        pass_text(pass_text(s, ids), ids) == pass_text(s, ids),
{
    assert(pass_inv(s, ids.take(0))) by {
        assert(ids.take(0).len() == 0);
        assert forall|w: Seq<char>|
            ident_shaped(w) && #[trigger] contains_sub(s, ticked(w)) implies exists|j: int|
            0 <= j < ids.take(0).len() && #[trigger] ids.take(0)[j] == w by {
            lemma_ticked_has_tick(s, w);
            assert(false);
        }
    }
    assert(ids.skip(0) =~= ids);
    lemma_pass_inv_all(s, ids, 0);
    let out = pass_text(s, ids);
    assert forall|k: int| 0 <= k < ids.len() implies !eligible(out, #[trigger] ids[k]) by {
        if eligible(out, ids[k]) {
            lemma_mentions_contains(out, ids[k]);
            assert(token_marker(out, ids[k]));
            let q = choose|q: int| marker_token_at(out, q, ids[k]);
            assert(contains_at(marker_of(ids[k]), 1, ticked(ids[k]))) by {
                assert(marker_of(ids[k]).subrange(1, 1 + ticked(ids[k]).len() as int) =~= ticked(
                    ids[k],
                ));
            }
            lemma_contains_at_trans(out, q, marker_of(ids[k]), 1, ticked(ids[k]));
            assert(contains_sub(out, ticked(ids[k])));
            assert(false);
        }
    }
    lemma_pass_noop(out, ids);
}

} // verus!
