//! Character-level helpers shared by the classifier and the rewrite engine.
//!
//! Lines are handled as vectors of characters; the specifications speak of
//! the corresponding `Seq<char>` views. Substring containment, the
//! word/whitespace character classes and the link-marker shapes are all
//! defined here.
use vstd::prelude::*;
use vstd::string::StrSliceExecFns;

verus! {

/// The whitespace characters that separate tokens on a line.
pub open spec fn is_space_char(c: char) -> bool {
    c == ' ' || c == '\t' || c == '\r' || c == '\n'
}

/// The characters an identifier may be made of.
pub open spec fn is_word_char(c: char) -> bool {
    (97 <= c as u32 && c as u32 <= 122)  // 'a'..='z'
    || (65 <= c as u32 && c as u32 <= 90)  // 'A'..='Z'
    || (48 <= c as u32 && c as u32 <= 57)  // '0'..='9'
    || c == '_'
}

pub fn space_char(c: char) -> (r: bool)
    ensures
        r == is_space_char(c),
{
    c == ' ' || c == '\t' || c == '\r' || c == '\n'
}

pub fn word_char(c: char) -> (r: bool)
    ensures
        r == is_word_char(c),
{
    let n = c as u32;
    (97 <= n && n <= 122) || (65 <= n && n <= 90) || (48 <= n && n <= 57) || c == '_'
}

/// `needle` occurs in `hay` starting exactly at position `i`.
pub open spec fn contains_at(hay: Seq<char>, i: int, needle: Seq<char>) -> bool {
    &&& 0 <= i
    &&& i + needle.len() <= hay.len()
    &&& hay.subrange(i, i + needle.len() as int) == needle
}

/// `needle` occurs somewhere in `hay`.
pub open spec fn contains_sub(hay: Seq<char>, needle: Seq<char>) -> bool {
    exists|i: int| contains_at(hay, i, needle)
}

/// Whether `needle` occurs in `hay` starting at position `i`.
pub fn matches_at(hay: &[char], i: usize, needle: &[char]) -> (r: bool)
    requires
        i + needle@.len() <= hay@.len(),
    ensures
        r == contains_at(hay@, i as int, needle@),
{
    let hay_len = hay.len();
    let mut j: usize = 0;
    while j < needle.len()
        invariant
            hay@.len() == hay_len,
            i + needle@.len() <= hay@.len(),
            j <= needle@.len(),
            forall|k: int| 0 <= k < j ==> hay@[i + k] == needle@[k],
        decreases needle@.len() - j,
    {
        if hay[i + j] != needle[j] {
            assert(!contains_at(hay@, i as int, needle@)) by {
                assert(hay@.subrange(i as int, i + needle@.len() as int) == needle@ ==> hay@
                    .subrange(i as int, i + needle@.len() as int)[j as int] == needle@[j as int]);
            }
            return false;
        }
        j += 1;
    }
    assert(hay@.subrange(i as int, i + needle@.len() as int) =~= needle@);
    true
}

/// Substring search; linear scan over every start position.
pub fn contains_chars(hay: &[char], needle: &[char]) -> (r: bool)
    ensures
        r == contains_sub(hay@, needle@),
{
    if needle.len() == 0 {
        assert(contains_at(hay@, 0, needle@)) by {
            assert(hay@.subrange(0, 0) =~= needle@);
        }
        return true;
    }
    if needle.len() > hay.len() {
        assert(!contains_sub(hay@, needle@));
        return false;
    }
    let hay_len = hay.len();
    let end = hay_len - needle.len();
    let mut i: usize = 0;
    while i <= end
        invariant
            hay@.len() == hay_len,
            1 <= needle@.len() <= hay@.len(),
            end == hay@.len() - needle@.len(),
            i <= end + 1,
            forall|k: int| 0 <= k < i ==> !contains_at(hay@, k, needle@),
        decreases end + 1 - i,
    {
        if matches_at(hay, i, needle) {
            assert(contains_at(hay@, i as int, needle@));
            return true;
        }
        i += 1;
    }
    assert(forall|k: int| contains_at(hay@, k, needle@) ==> 0 <= k <= end);
    false
}

/// Element-wise equality of two character slices.
pub fn eq_chars(a: &[char], b: &[char]) -> (r: bool)
    ensures
        r == (a@ == b@),
{
    if a.len() != b.len() {
        return false;
    }
    let mut i: usize = 0;
    while i < a.len()
        invariant
            a@.len() == b@.len(),
            i <= a@.len(),
            forall|k: int| 0 <= k < i ==> a@[k] == b@[k],
        decreases a@.len() - i,
    {
        if a[i] != b[i] {
            return false;
        }
        i += 1;
    }
    assert(a@ =~= b@);
    true
}

/// The whitespace class as a predicate value, for prefix runs.
pub open spec fn space_pred() -> spec_fn(char) -> bool {
    |c: char| is_space_char(c)
}

/// The identifier-character class as a predicate value, for prefix runs.
pub open spec fn word_pred() -> spec_fn(char) -> bool {
    |c: char| is_word_char(c)
}

/// The token class: anything that is not whitespace.
pub open spec fn token_pred() -> spec_fn(char) -> bool {
    |c: char| !is_space_char(c)
}

/// Length of the longest prefix of `s` whose characters all satisfy `p`.
pub open spec fn prefix_run(s: Seq<char>, p: spec_fn(char) -> bool) -> nat
    decreases s.len(),
{
    if s.len() == 0 || !p(s[0]) {
        0
    } else {
        (1 + prefix_run(s.drop_first(), p)) as nat
    }
}

/// The prefix run is exactly the position of the first character that
/// falls out of the class (or the whole length, when none does).
pub proof fn lemma_prefix_run(s: Seq<char>, p: spec_fn(char) -> bool, i: int)
    requires
        0 <= i <= s.len(),
        forall|k: int| 0 <= k < i ==> p(#[trigger] s[k]),
        i == s.len() || !p(s[i]),
    ensures
        prefix_run(s, p) == i,
    decreases s.len(),
{
    if i == 0 {
    } else {
        assert(p(s[0]));
        assert forall|k: int| 0 <= k < i - 1 implies p(#[trigger] s.drop_first()[k]) by {
            assert(s.drop_first()[k] == s[k + 1]);
        }
        lemma_prefix_run(s.drop_first(), p, i - 1);
    }
}

/// What holds of every prefix run: it stays within the sequence, its
/// characters are in the class, and it stops at the first that is not.
pub proof fn lemma_prefix_run_props(s: Seq<char>, p: spec_fn(char) -> bool)
    ensures
        prefix_run(s, p) <= s.len(),
        forall|k: int| 0 <= k < prefix_run(s, p) ==> p(#[trigger] s[k]),
        prefix_run(s, p) < s.len() ==> !p(s[prefix_run(s, p) as int]),
    decreases s.len(),
{
    if s.len() == 0 || !p(s[0]) {
    } else {
        lemma_prefix_run_props(s.drop_first(), p);
        assert forall|k: int| 0 <= k < prefix_run(s, p) implies p(#[trigger] s[k]) by {
            if k > 0 {
                assert(s.drop_first()[k - 1] == s[k]);
            }
        }
        if prefix_run(s, p) < s.len() {
            assert(s.drop_first()[prefix_run(s.drop_first(), p) as int] == s[prefix_run(
                s,
                p,
            ) as int]);
        }
    }
}

/// No character of the word is whitespace; true of every identifier the
/// patterns can capture.
pub open spec fn no_space(w: Seq<char>) -> bool {
    forall|k: int| 0 <= k < w.len() ==> !is_space_char(#[trigger] w[k])
}

/// The shape every capturable identifier has: non-empty, and free of
/// whitespace, brackets and backticks, none of which the patterns can
/// capture.
pub open spec fn ident_shaped(w: Seq<char>) -> bool {
    &&& w.len() > 0
    &&& forall|k: int|
        0 <= k < w.len() ==> (!is_space_char(#[trigger] w[k]) && w[k] != '[' && w[k] != ']' && w[k]
            != '`')
}

/// Every character of the word is an identifier character.
pub open spec fn word_chars(w: Seq<char>) -> bool {
    forall|k: int| 0 <= k < w.len() ==> is_word_char(#[trigger] w[k])
}

/// What a declaration pattern can capture: an identifier-character run,
/// with the import pattern's terminating semicolon allowed at the end.
pub open spec fn capture_shaped(w: Seq<char>) -> bool {
    forall|k: int|
        0 <= k < w.len() ==> (is_word_char(#[trigger] w[k]) || (k == w.len() - 1 && w[k] == ';'))
}

/// Identifier characters are neither whitespace nor any of the marker
/// characters.
pub proof fn lemma_word_not_special(c: char)
    requires
        is_word_char(c) || c == ';',
    ensures
        !is_space_char(c),
        c != '[',
        c != ']',
        c != '`',
{
}

/// A non-empty capture has the identifier shape.
pub proof fn lemma_capture_ident_shaped(w: Seq<char>)
    requires
        capture_shaped(w),
        w.len() > 0,
    ensures
        ident_shaped(w),
{
    assert forall|k: int|
        0 <= k < w.len() implies (!is_space_char(#[trigger] w[k]) && w[k] != '[' && w[k] != ']'
        && w[k] != '`') by {
        lemma_word_not_special(w[k]);
    }
}

/// An occurrence in the left part is an occurrence in the whole.
pub proof fn lemma_contains_lift_left(a: Seq<char>, b: Seq<char>, x: Seq<char>)
    requires
        contains_sub(a, x),
    ensures
        contains_sub(a + b, x),
{
    let p = choose|p: int| contains_at(a, p, x);
    assert(contains_at(a + b, p, x)) by {
        assert((a + b).subrange(p, p + x.len() as int) =~= a.subrange(p, p + x.len() as int));
    }
}

/// An occurrence in the right part is an occurrence in the whole.
pub proof fn lemma_contains_lift_right(a: Seq<char>, b: Seq<char>, x: Seq<char>)
    requires
        contains_sub(b, x),
    ensures
        contains_sub(a + b, x),
{
    let p = choose|p: int| contains_at(b, p, x);
    assert(contains_at(a + b, a.len() + p, x)) by {
        assert((a + b).subrange(a.len() + p, a.len() + p + x.len() as int) =~= b.subrange(
            p,
            p + x.len() as int,
        ));
    }
}

/// Whoever contains a concatenation contains its left part.
pub proof fn lemma_contains_of_concat_needle(s: Seq<char>, a: Seq<char>, b: Seq<char>)
    requires
        contains_sub(s, a + b),
    ensures
        contains_sub(s, a),
{
    let p = choose|p: int| contains_at(s, p, a + b);
    assert(contains_at(s, p, a)) by {
        assert forall|k: int| 0 <= k < a.len() implies s.subrange(p, p + a.len() as int)[k]
            == a[k] by {
            assert(s.subrange(p, p + (a + b).len() as int)[k] == (a + b)[k]);
        }
        assert(s.subrange(p, p + a.len() as int) =~= a);
    }
}

/// A whitespace-free word inside `a + b` lies wholly in `a` or wholly in
/// `b`, as long as `b` opens with whitespace (or is empty): no occurrence
/// can straddle the boundary.
pub proof fn lemma_split_contains(a: Seq<char>, b: Seq<char>, x: Seq<char>)
    requires
        contains_sub(a + b, x),
        no_space(x),
        x.len() > 0,
        b.len() == 0 || is_space_char(b[0]),
    ensures
        contains_sub(a, x) || contains_sub(b, x),
{
    let p = choose|p: int| contains_at(a + b, p, x);
    if p + x.len() <= a.len() {
        assert(contains_at(a, p, x)) by {
            assert forall|k: int| 0 <= k < x.len() implies a.subrange(p, p + x.len() as int)[k]
                == x[k] by {
                assert((a + b).subrange(p, p + x.len() as int)[k] == x[k]);
            }
            assert(a.subrange(p, p + x.len() as int) =~= x);
        }
    } else if p < a.len() {
        assert(x[a.len() - p] == (a + b).subrange(p, p + x.len() as int)[a.len() - p]);
        assert(x[a.len() - p] == b[0]);
        assert(false);
    } else {
        assert(contains_at(b, p - a.len(), x)) by {
            assert forall|k: int|
                0 <= k < x.len() implies b.subrange(p - a.len(), p - a.len() + x.len() as int)[k]
                == x[k] by {
                assert((a + b).subrange(p, p + x.len() as int)[k] == x[k]);
            }
            assert(b.subrange(p - a.len(), p - a.len() + x.len() as int) =~= x);
        }
    }
}

/// A whitespace-free word inside `a + b` lies wholly in `b` when `a` is
/// all whitespace.
pub proof fn lemma_split_contains_ws_head(a: Seq<char>, b: Seq<char>, x: Seq<char>)
    requires
        contains_sub(a + b, x),
        no_space(x),
        x.len() > 0,
        forall|k: int| 0 <= k < a.len() ==> is_space_char(#[trigger] a[k]),
    ensures
        contains_sub(b, x),
{
    let p = choose|p: int| contains_at(a + b, p, x);
    if p < a.len() {
        assert(x[0] == (a + b).subrange(p, p + x.len() as int)[0]);
        assert(x[0] == a[p]);
        assert(false);
    } else {
        assert(contains_at(b, p - a.len(), x)) by {
            assert forall|k: int|
                0 <= k < x.len() implies b.subrange(p - a.len(), p - a.len() + x.len() as int)[k]
                == x[k] by {
                assert((a + b).subrange(p, p + x.len() as int)[k] == x[k]);
            }
            assert(b.subrange(p - a.len(), p - a.len() + x.len() as int) =~= x);
        }
    }
}

/// The identifier wrapped in backticks, the shape the idempotence guard
/// looks for.
pub open spec fn ticked(id: Seq<char>) -> Seq<char> {
    seq!['`'] + id + seq!['`']
}

/// The link-marker form that replaces a token which mentions a registered
/// identifier.
pub open spec fn marker_of(id: Seq<char>) -> Seq<char> {
    seq!['['] + ticked(id) + seq![']']
}

pub fn make_ticked(id: &[char]) -> (r: Vec<char>)
    ensures
        r@ == ticked(id@),
{
    let mut r: Vec<char> = Vec::new();
    r.push('`');
    let mut i: usize = 0;
    while i < id.len()
        invariant
            i <= id@.len(),
            r@ == seq!['`'] + id@.take(i as int),
        decreases id@.len() - i,
    {
        r.push(id[i]);
        assert(seq!['`'] + id@.take(i + 1) =~= (seq!['`'] + id@.take(i as int)).push(
            id@[i as int],
        ));
        i += 1;
    }
    r.push('`');
    assert(r@ =~= ticked(id@)) by {
        assert(id@.take(id@.len() as int) =~= id@);
    }
    r
}

pub fn make_marker(id: &[char]) -> (r: Vec<char>)
    ensures
        r@ == marker_of(id@),
{
    let ticks = make_ticked(id);
    let mut r: Vec<char> = Vec::new();
    r.push('[');
    let mut i: usize = 0;
    while i < ticks.len()
        invariant
            ticks@ == ticked(id@),
            i <= ticks@.len(),
            r@ == seq!['['] + ticks@.take(i as int),
        decreases ticks@.len() - i,
    {
        r.push(ticks[i]);
        assert(seq!['['] + ticks@.take(i + 1) =~= (seq!['['] + ticks@.take(i as int)).push(
            ticks@[i as int],
        ));
        i += 1;
    }
    r.push(']');
    assert(r@ =~= marker_of(id@)) by {
        assert(ticks@.take(ticks@.len() as int) =~= ticks@);
    }
    r
}

/// First position at or after `start` holding whitespace (or the end):
/// the end of the token that starts at `start`.
pub fn token_run_end(text: &[char], start: usize) -> (j: usize)
    requires
        start <= text@.len(),
    ensures
        start <= j <= text@.len(),
        j - start == prefix_run(text@.skip(start as int), token_pred()),
{
    let mut j = start;
    while j < text.len() && !space_char(text[j])
        invariant
            start <= j <= text@.len(),
            forall|k: int| start <= k < j ==> !is_space_char(#[trigger] text@[k]),
        decreases text@.len() - j,
    {
        j += 1;
    }
    proof {
        let t = text@.skip(start as int);
        assert forall|k: int| 0 <= k < j - start implies token_pred()(#[trigger] t[k]) by {
            assert(t[k] == text@[start + k]);
        }
        if j - start < t.len() {
            assert(t[j - start] == text@[j as int]);
        }
        lemma_prefix_run(t, token_pred(), j - start);
    }
    j
}

/// Appends every character of `src` to `dst`.
pub fn push_all(dst: &mut Vec<char>, src: &[char])
    ensures
        final(dst)@ == old(dst)@ + src@,
{
    let ghost base = dst@;
    let mut k: usize = 0;
    proof {
        assert(base + src@.take(0) =~= base);
    }
    while k < src.len()
        invariant
            k <= src@.len(),
            dst@ == base + src@.take(k as int),
        decreases src@.len() - k,
    {
        dst.push(src[k]);
        assert(base + src@.take(k + 1) =~= (base + src@.take(k as int)).push(src@[k as int]));
        k += 1;
    }
    assert(base + src@.take(src@.len() as int) =~= base + src@);
}

/// A copy of the characters in positions `a..b`.
pub fn copy_range(text: &[char], a: usize, b: usize) -> (r: Vec<char>)
    requires
        a <= b <= text@.len(),
    ensures
        r@ == text@.subrange(a as int, b as int),
{
    let mut r: Vec<char> = Vec::new();
    let mut k = a;
    while k < b
        invariant
            a <= k <= b <= text@.len(),
            r@ == text@.subrange(a as int, k as int),
        decreases b - k,
    {
        r.push(text[k]);
        assert(text@.subrange(a as int, k + 1) =~= text@.subrange(a as int, k as int).push(
            text@[k as int],
        ));
        k += 1;
    }
    r
}

/// The characters of a string, in order.
pub fn chars_of(s: &str) -> (r: Vec<char>)
    ensures
        r@ == s@,
{
    let n = s.unicode_len();
    let mut r: Vec<char> = Vec::new();
    let mut i: usize = 0;
    while i < n
        invariant
            n == s@.len(),
            i <= n,
            r@ == s@.take(i as int),
        decreases n - i,
    {
        r.push(s.get_char(i));
        assert(s@.take(i + 1) =~= s@.take(i as int).push(s@[i as int]));
        i += 1;
    }
    assert(s@.take(n as int) =~= s@);
    r
}

/// Relies on String::push: appends exactly the one character at the end.
#[verifier::external_body]
fn push_char(s: &mut String, c: char)
    ensures
        final(s)@ == old(s)@.push(c),
{
    s.push(c);
}

/// A string holding exactly the given characters.
pub fn string_of(v: &[char]) -> (r: String)
    ensures
        r@ == v@,
{
    let mut r = String::new();
    let mut i: usize = 0;
    while i < v.len()
        invariant
            i <= v@.len(),
            r@ == v@.take(i as int),
        decreases v@.len() - i,
    {
        push_char(&mut r, v[i]);
        assert(v@.take(i + 1) =~= v@.take(i as int).push(v@[i as int]));
        i += 1;
    }
    assert(v@.take(v@.len() as int) =~= v@);
    r
}

} // verus!
