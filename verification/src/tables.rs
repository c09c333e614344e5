//! Fixed configuration tables: the stopword set, the minimum identifier
//! length, and the reserved always-link set.
//!
//! These are immutable data consulted by the classifier and by the registry
//! builder; nothing in the crate mutates them.
use vstd::prelude::*;
use crate::chars::{chars_of, eq_chars};

verus! {

/// Identifiers shorter than this never enter the registry.
pub const MIN_IDENT_CHARS: usize = 3;

/// Common short or self-referential tokens that must never become linkable
/// identifiers, however often they are declared.
pub open spec fn is_stopword(w: Seq<char>) -> bool {
    ||| w == "log"@
    ||| w == "std"@
    ||| w == "core"@
    ||| w == "super"@
    ||| w == "io"@
    ||| w == "crate"@
    ||| w == "to"@
    ||| w == "path"@
    ||| w == "for"@
    ||| w == "from"@
    ||| w == "into"@
    ||| w == "that"@
    ||| w == "we"@
    ||| w == "so"@
    ||| w == "of"@
    ||| w == "new"@
    ||| w == "file"@
    ||| w == "self"@
    ||| w == "Self"@
}

/// Whether the characters equal the string's characters.
fn eq_str(w: &[char], s: &str) -> (r: bool)
    ensures
        r == (w@ == s@),
{
    let t = chars_of(s);
    eq_chars(w, t.as_slice())
}

/// Membership in the stopword set.
pub fn stopword(w: &[char]) -> (r: bool)
    ensures
        r == is_stopword(w@),
{
    eq_str(w, "log") || eq_str(w, "std") || eq_str(w, "core") || eq_str(w, "super") || eq_str(
        w,
        "io",
    ) || eq_str(w, "crate") || eq_str(w, "to") || eq_str(w, "path") || eq_str(w, "for") || eq_str(
        w,
        "from",
    ) || eq_str(w, "into") || eq_str(w, "that") || eq_str(w, "we") || eq_str(w, "so") || eq_str(
        w,
        "of",
    ) || eq_str(w, "new") || eq_str(w, "file") || eq_str(w, "self") || eq_str(w, "Self")
}

/// A captured name is kept only when it is long enough and not a stopword;
/// the empty name is excluded by the length rule.
pub open spec fn registrable(w: Seq<char>) -> bool {
    w.len() >= MIN_IDENT_CHARS && !is_stopword(w)
}

pub fn registrable_ident(w: &[char]) -> (r: bool)
    ensures
        r == registrable(w@),
{
    w.len() >= MIN_IDENT_CHARS && !stopword(w)
}

/// Primitive and ubiquitous type names reserved for a future unconditional
/// backtick-wrapping pass; the set is configuration data only and alters
/// neither the classifier nor the rewrite engine.
pub open spec fn in_always_link(w: Seq<char>) -> bool {
    ||| w == "std"@
    ||| w == "core"@
    ||| w == "io"@
    ||| w == "self"@
    ||| w == "Result"@
    ||| w == "()"@
    ||| w == "Self"@
    ||| w == "String"@
    ||| w == "str"@
    ||| w == "&str"@
    ||| w == "bool"@
    ||| w == "true"@
    ||| w == "false"@
    ||| w == "float"@
    ||| w == "f8"@
    ||| w == "f16"@
    ||| w == "f32"@
    ||| w == "f64"@
    ||| w == "f128"@
    ||| w == "i8"@
    ||| w == "u8"@
    ||| w == "i16"@
    ||| w == "u16"@
    ||| w == "i32"@
    ||| w == "u32"@
    ||| w == "i64"@
    ||| w == "u64"@
    ||| w == "i128"@
    ||| w == "u128"@
    ||| w == "isize"@
    ||| w == "usize"@
    ||| w == "path"@
    ||| w == "from"@
    ||| w == "into"@
    ||| w == "n"@
}

/// Membership in the reserved always-link set.
pub fn always_link(w: &[char]) -> (r: bool)
    ensures
        r == in_always_link(w@),
{
    eq_str(w, "std") || eq_str(w, "core") || eq_str(w, "io") || eq_str(w, "self") || eq_str(
        w,
        "Result",
    ) || eq_str(w, "()") || eq_str(w, "Self") || eq_str(w, "String") || eq_str(w, "str") || eq_str(
        w,
        "&str",
    ) || eq_str(w, "bool") || eq_str(w, "true") || eq_str(w, "false") || eq_str(w, "float")
        || eq_str(w, "f8") || eq_str(w, "f16") || eq_str(w, "f32") || eq_str(w, "f64") || eq_str(
        w,
        "f128",
    ) || eq_str(w, "i8") || eq_str(w, "u8") || eq_str(w, "i16") || eq_str(w, "u16") || eq_str(
        w,
        "i32",
    ) || eq_str(w, "u32") || eq_str(w, "i64") || eq_str(w, "u64") || eq_str(w, "i128") || eq_str(
        w,
        "u128",
    ) || eq_str(w, "isize") || eq_str(w, "usize") || eq_str(w, "path") || eq_str(w, "from")
        || eq_str(w, "into") || eq_str(w, "n")
}

} // verus!
