//! Maven version ranges met while importing a `pom.xml`.
use crate::text::{contains_char, trim, trimmed};
use vstd::prelude::*;

verus! {

/// Translation of a Maven version range into the manifest's syntax.
#[derive(Debug, Clone, PartialEq, Eq)]
pub enum RangeTranslation {
    /// A single version, ready to be written.
    Direct(String),
    /// No simple equivalent: reported, never written.
    Unresolved,
}

/// The shape of a Maven range: after trimming, it opens with `[` or `(` and
/// closes with `]` or `)`.
pub open spec fn maven_range(raw: Seq<char>) -> bool {
    let t = trimmed(raw);
    &&& t.len() >= 2
    &&& (t[0] == '[' || t[0] == '(')
    &&& (t.last() == ']' || t.last() == ')')
}

/// Recognises Maven range syntax (`[1.0,2.0)`, `[1.5,)`, `(,2.0]`, `[1.0]`...),
/// which never starts like the manifest's own `^`/`~` requirements.
pub fn is_maven_range(raw: &str) -> (res: bool)
    ensures
        res == maven_range(raw@),
{
    let trimmed = trim(raw);
    let n = trimmed.unicode_len();
    if n < 2 {
        return false;
    }
    let first = trimmed.get_char(0);
    let last = trimmed.get_char(n - 1);
    (first == '[' || first == '(') && (last == ']' || last == ')')
}

/// What `translate_maven_range` gives: `Some(v)` for a direct version.
pub open spec fn range_translation(raw: Seq<char>) -> Option<Seq<char>> {
    let t = trimmed(raw);
    if t.len() >= 2 && t[0] == '[' && t.last() == ']' && !t.contains(',') && t.len() > 2 {
        Some(t.subrange(1, t.len() - 1))
    } else {
        None
    }
}

/// Translates a recognised range. Only `[x]`, one exact version between closed
/// brackets with no comma, has a direct equivalent; every other form would need
/// the newest version available in the repository, so it stays unresolved rather
/// than risk writing a wrong version.
pub fn translate_maven_range(raw: &str) -> (res: RangeTranslation)
    ensures
        match res {
            RangeTranslation::Direct(v) => range_translation(raw@) == Some(v@),
            RangeTranslation::Unresolved => range_translation(raw@) is None,
        },
{
    let trimmed = trim(raw);
    let n = trimmed.unicode_len();
    if n >= 2 && trimmed.get_char(0) == '[' && trimmed.get_char(n - 1) == ']' && !contains_char(trimmed, ',') {
        if n > 2 {
            let inner = trimmed.substring_char(1, n - 1);
            return RangeTranslation::Direct(String::from_str(inner));
        }
    }
    RangeTranslation::Unresolved
}

/// A range is translated into a single version only when it is a Maven range.
pub proof fn law_translation_only_of_ranges(raw: Seq<char>)
    ensures
        range_translation(raw) is Some ==> maven_range(raw),
{
}

} // verus!
