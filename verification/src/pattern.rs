//! Patterns: the regular expressions of the `regex` crate, and what those that
//! the rules write mean.
use crate::text::{occurrence, replaced};
use vstd::prelude::*;

verus! {

/// Whether `Regex::new` accepts a pattern.
pub uninterp spec fn regex_compiles(pattern: Seq<char>) -> bool;

/// Whether `Regex::is_match` finds a match of a pattern in a text.
pub uninterp spec fn regex_matches(pattern: Seq<char>, text: Seq<char>) -> bool;

/// What `Regex::replace` makes of a text: its first match of a pattern gives
/// way to the replacement.
pub uninterp spec fn regex_replaced(
    pattern: Seq<char>,
    text: Seq<char>,
    replacement: Seq<char>,
) -> Seq<char>;

/// A character that stands for itself in a pattern.
pub open spec fn is_plain(c: char) -> bool {
    ('a' <= c && c <= 'z') || ('A' <= c && c <= 'Z') || ('0' <= c && c <= '9') || c == '-' || c
        == '_' || c == '/' || c == ':' || c == '@'
}

/// A wildcard of plain characters, dots and stars.
pub open spec fn is_plain_wildcard(wildcard: Seq<char>) -> bool {
    forall|i: int|
        0 <= i < wildcard.len() ==> is_plain(#[trigger] wildcard[i]) || wildcard[i] == '.'
            || wildcard[i] == '*'
}

/// A length up to which a plain wildcard always makes a pattern.
pub const SHORT: usize = 1000;

/// The pattern of a wildcard character: a dot is escaped, a star stands for
/// any characters, and any other character is kept.
pub open spec fn wildcard_piece(c: char) -> Seq<char> {
    if c == '.' {
        seq!['\\', '.']
    } else if c == '*' {
        seq!['.', '*']
    } else {
        seq![c]
    }
}

/// The patterns of the characters of a wildcard, one after another.
pub open spec fn wildcard_body(wildcard: Seq<char>) -> Seq<char>
    decreases wildcard.len(),
{
    if wildcard.len() == 0 {
        Seq::empty()
    } else {
        wildcard_piece(wildcard[0]) + wildcard_body(wildcard.drop_first())
    }
}

/// The pattern of a wildcard, which is to match a text as a whole.
pub open spec fn wildcard_pattern(wildcard: Seq<char>) -> Seq<char> {
    seq!['^'] + wildcard_body(wildcard) + seq!['$']
}

/// Whether a text is what a wildcard stands for: a star stands for any
/// characters of one line, any other character for itself.
pub open spec fn wildcard_accepts(wildcard: Seq<char>, text: Seq<char>) -> bool
    decreases wildcard.len(),
{
    if wildcard.len() == 0 {
        text.len() == 0
    } else if wildcard[0] == '*' {
        exists|k: int|
            0 <= k <= text.len() && !text.take(k).contains('\n') && wildcard_accepts(
                wildcard.drop_first(),
                #[trigger] text.skip(k),
            )
    } else {
        text.len() > 0 && text[0] == wildcard[0] && wildcard_accepts(
            wildcard.drop_first(),
            text.drop_first(),
        )
    }
}

/// The pattern of a quoted realm that is a path: `realm="/` and characters up
/// to the closing quote.
pub open spec fn realm_pattern() -> Seq<char> {
    "realm=\"/([^\"]*)\""@
}

/// A text as a replacement names it: two dollar signs stand for one.
pub open spec fn escaped(s: Seq<char>) -> Seq<char> {
    replaced(s, "$"@, "$$"@)
}

/// The replacement that puts a host in front of the path of a realm.
pub open spec fn realm_replacement(host: Seq<char>) -> Seq<char> {
    "realm=\"https://"@ + escaped(host) + "/$1\""@
}

/// Where a text first says `realm="/`.
pub open spec fn realm_at(text: Seq<char>) -> Option<int> {
    occurrence(text, "realm=\"/"@, 0)
}

/// Whether a text holds a quoted realm that is a path.
pub open spec fn has_relative_realm(text: Seq<char>) -> bool {
    match realm_at(text) {
        Some(i) => text.skip(i + 8).contains('"'),
        None => false,
    }
}

/// A text whose first relative realm is made absolute: the scheme and the host
/// stand between the opening quote and the path.
pub open spec fn with_realm_host(text: Seq<char>, host: Seq<char>) -> Seq<char>
    recommends
        has_relative_realm(text),
{
    text.take(realm_at(text)->0 + 7) + "https://"@ + host + text.skip(realm_at(text)->0 + 7)
}

/// `Regex::new` and `Regex::is_match`: whether a pattern matches somewhere in a
/// text, where the pattern is one. The pattern of a plain wildcard matches the
/// texts that the wildcard stands for; it is refused only where its automaton
/// outgrows the limit of 10 MiB, to which no character adds more than 2 KiB. The
/// pattern of a relative realm is one, and matches the texts that hold a
/// relative realm. Which other patterns are accepted, and what they match, is
/// not stated.
#[verifier::external_body]
pub(crate) fn is_match(pattern: &str, text: &str) -> (r: Option<bool>)
    ensures
        match r {
            Some(found) => regex_compiles(pattern@) && found == regex_matches(pattern@, text@),
            None => !regex_compiles(pattern@),
        },
        forall|wildcard: Seq<char>|
            pattern@ == #[trigger] wildcard_pattern(wildcard) && is_plain_wildcard(wildcard) && (
            wildcard.len() <= SHORT || r is Some) ==> r == Some(wildcard_accepts(wildcard, text@)),
        pattern@ == realm_pattern() ==> r == Some(has_relative_realm(text@)),
{
    match regex::Regex::new(pattern) {
        Ok(re) => Some(re.is_match(text)),
        Err(_) => None,
    }
}

/// `Regex::new` and `Regex::replace`: a text whose first match of a pattern
/// gives way to a replacement, where the pattern is one. In the replacement
/// that adds a host to a relative realm, two dollar signs stand for one, and
/// `$1` stands for the path of the realm. What other replacements give is not
/// stated.
#[verifier::external_body]
pub(crate) fn replace_match(pattern: &str, text: &str, replacement: &str) -> (r: Option<String>)
    ensures
        match r {
            Some(t) => regex_compiles(pattern@) && t@ == regex_replaced(
                pattern@,
                text@,
                replacement@,
            ),
            None => !regex_compiles(pattern@),
        },
        forall|host: Seq<char>|
            pattern@ == realm_pattern() && replacement@ == #[trigger] realm_replacement(host)
                && has_relative_realm(text@) ==> r is Some && r->0@ == with_realm_host(
                text@,
                host,
            ),
{
    match regex::Regex::new(pattern) {
        Ok(re) => Some(re.replace(text, replacement).into_owned()),
        Err(_) => None,
    }
}

} // verus!
