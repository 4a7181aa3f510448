//! Access lists: which images and repositories a list of patterns covers.
use crate::pattern::{
    is_match, is_plain_wildcard, regex_compiles, regex_matches, wildcard_accepts, wildcard_body,
    wildcard_pattern, wildcard_piece, SHORT,
};
use crate::text::{chars_of, has_char, join, joined, same, starts_with, texts};
use vstd::prelude::*;

verus! {

/// Whether a pattern of an access list covers a target: a pattern with a star
/// matches the whole target, any other pattern is a prefix of it.
pub open spec fn covers(pattern: Seq<char>, target: Seq<char>) -> bool {
    if pattern == "*"@ {
        true
    } else if pattern.contains('*') {
        regex_compiles(wildcard_pattern(pattern)) && regex_matches(
            wildcard_pattern(pattern),
            target,
        )
    } else {
        pattern.is_prefix_of(target)
    }
}

/// What `covers` means for an ordinary pattern: a star stands for any characters
/// of one line.
pub open spec fn covers_plainly(pattern: Seq<char>, target: Seq<char>) -> bool {
    if pattern == "*"@ {
        true
    } else if pattern.contains('*') {
        wildcard_accepts(pattern, target)
    } else {
        pattern.is_prefix_of(target)
    }
}

/// Whether a pattern's meaning can be told without regular expressions: it has
/// no star, or is a plain wildcard that is not too long to be one.
pub open spec fn is_ordinary(pattern: Seq<char>) -> bool {
    pattern.contains('*') ==> is_plain_wildcard(pattern) && (pattern.len() <= SHORT
        || regex_compiles(wildcard_pattern(pattern)))
}

/// The pattern of a wildcard.
fn make_wildcard_pattern(wildcard: &str) -> (r: String)
    ensures
        r@ == wildcard_pattern(wildcard@),
{
    let x: Vec<char> = chars_of(wildcard);
    let mut r: String = String::new();
    r.append("^");
    proof {
        reveal_strlit("^");
        reveal_strlit("$");
        reveal_strlit("\\.");
        reveal_strlit(".*");
        assert(r@ =~= seq!['^']);
        assert(wildcard@.skip(0) =~= wildcard@);
    }
    let mut i: usize = 0;
    while i < x.len()
        invariant
            i <= x.len(),
            x@ == wildcard@,
            r@ + wildcard_body(wildcard@.skip(i as int)) == seq!['^'] + wildcard_body(wildcard@),
        decreases x.len() - i,
    {
        let ghost done = r@;
        let ghost rest = wildcard@.skip(i as int);
        if x[i] == '.' {
            r.append("\\.");
            proof {
                reveal_strlit("\\.");
                assert("\\."@ =~= wildcard_piece('.'));
            }
        } else if x[i] == '*' {
            r.append(".*");
            proof {
                reveal_strlit(".*");
                assert(".*"@ =~= wildcard_piece('*'));
            }
        } else {
            r.append(wildcard.substring_char(i, i + 1));
            assert(wildcard@.subrange(i as int, i + 1) =~= wildcard_piece(x@[i as int]));
        }
        proof {
            assert(rest.drop_first() =~= wildcard@.skip(i + 1));
            assert(r@ + wildcard_body(wildcard@.skip(i + 1)) =~= done + wildcard_body(rest));
        }
        i += 1;
    }
    r.append("$");
    proof {
        reveal_strlit("$");
        assert(wildcard@.skip(i as int) =~= Seq::empty());
        assert(r@ =~= wildcard_pattern(wildcard@));
    }
    r
}

/// Whether a pattern of an access list covers a target.
pub fn pattern_covers(pattern: &str, target: &str) -> (r: bool)
    ensures
        r == covers(pattern@, target@),
        is_ordinary(pattern@) ==> r == covers_plainly(pattern@, target@),
{
    if same(pattern, "*") {
        return true;
    }
    if has_char(pattern, '*') {
        let regex: String = make_wildcard_pattern(pattern);
        match is_match(regex.as_str(), target) {
            Some(found) => found,
            None => false,
        }
    } else {
        starts_with(target, pattern)
    }
}

/// Whether an access list covers the target that keywords make up. Nothing is
/// covered without keywords or without patterns.
pub fn check_list(keywords: &[String], list: &[String]) -> (r: bool)
    ensures
        r == (keywords@.len() > 0 && exists|i: int|
            0 <= i < list@.len() && covers(
                (#[trigger] list@[i])@,
                joined(texts(keywords@), "/"@),
            )),
        (forall|i: int| 0 <= i < list@.len() ==> is_ordinary((#[trigger] list@[i])@)) ==> r == (
        keywords@.len() > 0 && exists|i: int|
            0 <= i < list@.len() && covers_plainly(
                (#[trigger] list@[i])@,
                joined(texts(keywords@), "/"@),
            )),
{
    if keywords.len() == 0 || list.len() == 0 {
        return false;
    }
    let target: String = join(keywords, "/");
    let mut i: usize = 0;
    while i < list.len()
        invariant
            i <= list@.len(),
            keywords@.len() > 0,
            target@ == joined(texts(keywords@), "/"@),
            forall|k: int| 0 <= k < i ==> !covers((#[trigger] list@[k])@, target@),
            forall|k: int|
                0 <= k < i && is_ordinary((#[trigger] list@[k])@) ==> !covers_plainly(
                    list@[k]@,
                    target@,
                ),
        decreases list@.len() - i,
    {
        if pattern_covers(list[i].as_str(), target.as_str()) {
            assert(covers(list@[i as int]@, target@));
            return true;
        }
        i += 1;
    }
    false
}

} // verus!
