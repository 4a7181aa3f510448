//! Header fields: the outside types `HeaderMap`, `HeaderName` and
//! `HeaderValue`, what they hold, and what their methods do.
use crate::number::decimal;
use axum::http::header::{InvalidHeaderValue, ToStrError};
use axum::http::{HeaderMap, HeaderName, HeaderValue};
use vstd::prelude::*;

verus! {

/// `http::HeaderMap`: a multimap from header names to header values.
#[verifier::external_type_specification]
#[verifier::external_body]
#[verifier::reject_recursive_types(T)]
pub struct ExHeaderMap<T>(axum::http::HeaderMap<T>);

/// `http::HeaderName`: the name of a header field, in lower case.
#[verifier::external_type_specification]
#[verifier::external_body]
pub struct ExHeaderName(axum::http::HeaderName);

/// `http::HeaderValue`: the bytes of a header value.
#[verifier::external_type_specification]
#[verifier::external_body]
pub struct ExHeaderValue(axum::http::HeaderValue);

/// `http::header::InvalidHeaderValue`: the refusal of a text as a header value.
#[verifier::external_type_specification]
#[verifier::external_body]
pub struct ExInvalidHeaderValue(axum::http::header::InvalidHeaderValue);

/// `http::header::ToStrError`: the refusal of a header value as a text.
#[verifier::external_type_specification]
#[verifier::external_body]
pub struct ExToStrError(axum::http::header::ToStrError);

/// What a `HeaderMap` holds: for each name in it the values of that name, in
/// the order in which they were added.
pub uninterp spec fn header_contents(headers: HeaderMap) -> Map<Seq<char>, Seq<Seq<u8>>>;

/// The characters of a `HeaderName`.
pub uninterp spec fn name_text(name: HeaderName) -> Seq<char>;

/// The bytes of a `HeaderValue`.
pub uninterp spec fn value_bytes(value: HeaderValue) -> Seq<u8>;

/// A number of names at which a `HeaderMap` always has room for one more.
pub const ROOMY: usize = 6553;

/// The contents of a map without headers.
pub open spec fn no_headers() -> Map<Seq<char>, Seq<Seq<u8>>> {
    Map::empty()
}

/// A byte of printable ASCII, or a tab.
pub open spec fn is_visible_byte(b: u8) -> bool {
    32 <= b < 127 || b == 9
}

/// Whether a header value can be read as a text.
pub open spec fn visible(bytes: Seq<u8>) -> bool {
    forall|i: int| 0 <= i < bytes.len() ==> is_visible_byte(#[trigger] bytes[i])
}

/// The text of bytes that each stand for the character of the same code.
pub open spec fn text_of(bytes: Seq<u8>) -> Seq<char> {
    bytes.map_values(|b: u8| b as char)
}

/// A byte that may stand in a header value: no control character but the tab.
pub open spec fn is_value_byte(b: u8) -> bool {
    (b >= 32 && b != 127) || b == 9
}

/// Whether the bytes may be a header value.
pub open spec fn is_value(bytes: Seq<u8>) -> bool {
    forall|i: int| 0 <= i < bytes.len() ==> is_value_byte(#[trigger] bytes[i])
}

/// A lower-case letter, a digit or a hyphen.
pub open spec fn is_name_char(c: char) -> bool {
    ('a' <= c && c <= 'z') || ('0' <= c && c <= '9') || c == '-'
}

/// A header name of lower-case letters, digits and hyphens.
pub open spec fn is_name(s: Seq<char>) -> bool {
    0 < s.len() <= 64 && forall|i: int| 0 <= i < s.len() ==> is_name_char(#[trigger] s[i])
}

/// The name and the value of a header line.
pub open spec fn line_view(line: (HeaderName, HeaderValue)) -> (Seq<char>, Seq<u8>) {
    (name_text(line.0), value_bytes(line.1))
}

/// The names and values of header lines.
pub open spec fn line_views(lines: Seq<(HeaderName, HeaderValue)>) -> Seq<(Seq<char>, Seq<u8>)> {
    lines.map_values(|line: (HeaderName, HeaderValue)| line_view(line))
}

/// The values that a list of header lines has for a name, in their order.
pub open spec fn values_of(lines: Seq<(Seq<char>, Seq<u8>)>, name: Seq<char>) -> Seq<Seq<u8>>
    decreases lines.len(),
{
    if lines.len() == 0 {
        Seq::empty()
    } else if lines.last().0 == name {
        values_of(lines.drop_last(), name).push(lines.last().1)
    } else {
        values_of(lines.drop_last(), name)
    }
}

/// Header lines by their names.
pub open spec fn grouped(lines: Seq<(Seq<char>, Seq<u8>)>) -> Map<Seq<char>, Seq<Seq<u8>>> {
    Map::new(
        |name: Seq<char>| values_of(lines, name).len() > 0,
        |name: Seq<char>| values_of(lines, name),
    )
}

/// The first value of a name, where the name is there and the value can be
/// read as a text.
pub open spec fn first_text(
    contents: Map<Seq<char>, Seq<Seq<u8>>>,
    name: Seq<char>,
) -> Option<Seq<char>> {
    if contents.contains_key(name) && visible(contents[name][0]) {
        Some(text_of(contents[name][0]))
    } else {
        None
    }
}

/// `HeaderValue::to_str` gives the text of a value whose bytes are all
/// printable ASCII or tabs, and refuses any other.
pub assume_specification[ HeaderValue::to_str ](value: &HeaderValue) -> (text: Result<
    &str,
    ToStrError,
>)
    ensures
        match text {
            Ok(s) => visible(value_bytes(*value)) && s@ == text_of(value_bytes(*value)),
            Err(_) => !visible(value_bytes(*value)),
        },
;

/// `HeaderValue::from_str` makes a value of the UTF-8 bytes of a text, and
/// refuses a text with a control character other than the tab.
pub assume_specification[ HeaderValue::from_str ](src: &str) -> (value: Result<
    HeaderValue,
    InvalidHeaderValue,
>)
    ensures
        match value {
            Ok(v) => is_value(vstd::utf8::encode_utf8(src@)) && value_bytes(v)
                == vstd::utf8::encode_utf8(src@),
            Err(_) => !is_value(vstd::utf8::encode_utf8(src@)),
        },
;

/// `HeaderName::as_str` gives the characters of a name.
pub assume_specification[ HeaderName::as_str ](name: &HeaderName) -> (text: &str)
    ensures
        text@ == name_text(*name),
;

/// `HeaderName::from_static` makes a name of lower-case text; it panics on a
/// text that is none.
pub assume_specification[ HeaderName::from_static ](src: &'static str) -> (name: HeaderName)
    requires
        is_name(src@),
    ensures
        name_text(name) == src@,
;

/// `HeaderMap::new` makes a map without headers.
pub assume_specification[ HeaderMap::new ]() -> (headers: HeaderMap)
    ensures
        header_contents(headers) == no_headers(),
;

/// `HeaderMap::get` finds the first value of a name.
#[verifier::external_body]
pub(crate) fn first_value<'a>(headers: &'a HeaderMap, name: &str) -> (value: Option<
    &'a HeaderValue,
>)
    requires
        is_name(name@),
    ensures
        match value {
            Some(v) => header_contents(*headers).contains_key(name@) && header_contents(
                *headers,
            )[name@].len() > 0 && header_contents(*headers)[name@][0] == value_bytes(*v),
            None => !header_contents(*headers).contains_key(name@),
        },
{
    headers.get(name)
}

/// `HeaderMap::get_mut` gives access to the first value of a name, and to
/// nothing else of the map.
#[verifier::external_body]
pub(crate) fn replace_first(headers: &mut HeaderMap, name: &str, value: HeaderValue)
    requires
        is_name(name@),
        header_contents(*old(headers)).contains_key(name@),
    ensures
        header_contents(*final(headers)) == header_contents(*old(headers)).insert(
            name@,
            header_contents(*old(headers))[name@].update(0, value_bytes(value)),
        ),
{
    if let Some(slot) = headers.get_mut(name) {
        *slot = value;
    }
}

/// `HeaderMap::try_insert` gives a name a value and takes away the values that
/// the name had. It fails, and changes nothing, where the map cannot grow; a
/// map of few names always can. Whether a map of more names can grow depends
/// on how their hashes collide, and is not stated.
#[verifier::external_body]
pub(crate) fn try_insert(headers: &mut HeaderMap, name: HeaderName, value: HeaderValue) -> (stored:
    bool)
    ensures
        header_contents(*final(headers)) == if stored {
            header_contents(*old(headers)).insert(name_text(name), seq![value_bytes(value)])
        } else {
            header_contents(*old(headers))
        },
        header_contents(*old(headers)).dom().len() <= ROOMY ==> stored,
{
    headers.try_insert(name, value).is_ok()
}

/// `HeaderMap::try_append` adds a value behind the values that a name has. It
/// fails, and changes nothing, where the map cannot grow; a map of few names
/// always can. Whether a map of more names can grow depends on how their
/// hashes collide, and is not stated.
#[verifier::external_body]
pub(crate) fn try_append(headers: &mut HeaderMap, name: HeaderName, value: HeaderValue) -> (stored:
    bool)
    ensures
        header_contents(*final(headers)) == if stored {
            appended(header_contents(*old(headers)), name_text(name), value_bytes(value))
        } else {
            header_contents(*old(headers))
        },
        header_contents(*old(headers)).dom().len() <= ROOMY ==> stored,
{
    headers.try_append(name, value).is_ok()
}

/// `HeaderMap::iter` visits every value of every name, the values of one name
/// in their order.
#[verifier::external_body]
pub(crate) fn all_lines(headers: &HeaderMap) -> (lines: Vec<(HeaderName, HeaderValue)>)
    ensures
        header_contents(*headers) == grouped(line_views(lines@)),
{
    headers.iter().map(|(name, value)| (name.clone(), value.clone())).collect()
}

/// `HeaderMap::contains_key` tells whether a name has a value.
#[verifier::external_body]
pub(crate) fn contains_name(headers: &HeaderMap, name: &HeaderName) -> (found: bool)
    ensures
        found == header_contents(*headers).contains_key(name_text(*name)),
{
    headers.contains_key(name)
}

/// `HeaderValue::from` of a number: the number in decimal.
#[verifier::external_body]
pub(crate) fn usize_value(n: usize) -> (value: HeaderValue)
    ensures
        value_bytes(value) == vstd::utf8::encode_utf8(decimal(n as nat)),
{
    HeaderValue::from(n)
}

/// The contents after a value has been added behind the values of a name.
pub open spec fn appended(
    contents: Map<Seq<char>, Seq<Seq<u8>>>,
    name: Seq<char>,
    value: Seq<u8>,
) -> Map<Seq<char>, Seq<Seq<u8>>> {
    contents.insert(
        name,
        if contents.contains_key(name) {
            contents[name].push(value)
        } else {
            seq![value]
        },
    )
}

/// The characters of `s` from index `k` on may stand in a header name.
spec fn name_from(s: Seq<char>, k: int) -> bool
    decreases s.len() - k,
{
    k >= s.len() || (is_name_char(s[k]) && name_from(s, k + 1))
}

proof fn lemma_name_from(s: Seq<char>, k: int, i: int)
    requires
        0 <= k <= i < s.len(),
        name_from(s, k),
    ensures
        is_name_char(s[i]),
    decreases i - k,
{
    if k < i {
        lemma_name_from(s, k + 1, i);
    }
}

proof fn lemma_is_name(s: Seq<char>)
    requires
        0 < s.len() <= 64,
        name_from(s, 0),
    ensures
        is_name(s),
{
    assert forall|i: int| 0 <= i < s.len() implies is_name_char(#[trigger] s[i]) by {
        lemma_name_from(s, 0, i);
    }
}

/// The header names that the rules speak of are header names.
pub proof fn lemma_names()
    ensures
        is_name("host"@),
        is_name("referer"@),
        is_name("authorization"@),
        is_name("content-length"@),
        is_name("content-type"@),
        is_name("location"@),
        is_name("www-authenticate"@),
        is_name("user-agent"@),
{
    reveal_with_fuel(name_from, 17);
    reveal_strlit("host");
    reveal_strlit("referer");
    reveal_strlit("authorization");
    reveal_strlit("content-length");
    reveal_strlit("content-type");
    reveal_strlit("location");
    reveal_strlit("www-authenticate");
    reveal_strlit("user-agent");
    lemma_is_name("host"@);
    lemma_is_name("referer"@);
    lemma_is_name("authorization"@);
    lemma_is_name("content-length"@);
    lemma_is_name("content-type"@);
    lemma_is_name("location"@);
    lemma_is_name("www-authenticate"@);
    lemma_is_name("user-agent"@);
}

/// Whether every character of a text is printable ASCII or a tab.
pub open spec fn visible_text(s: Seq<char>) -> bool {
    forall|i: int|
        0 <= i < s.len() ==> (' ' <= #[trigger] s[i] && s[i] < '\u{7f}') || s[i] == '\t'
}

/// A text of printable ASCII and tabs makes a header value that can be read
/// back as the same text.
pub proof fn lemma_visible_text(s: Seq<char>)
    requires
        visible_text(s),
    ensures
        is_value(vstd::utf8::encode_utf8(s)),
        visible(vstd::utf8::encode_utf8(s)),
        text_of(vstd::utf8::encode_utf8(s)) == s,
{
    assert(vstd::utf8::is_ascii_chars(s));
    vstd::utf8::is_ascii_chars_encode_utf8(s);
    let bytes = vstd::utf8::encode_utf8(s);
    assert forall|i: int| 0 <= i < bytes.len() implies is_visible_byte(#[trigger] bytes[i])
        && bytes[i] as char == s[i] by {
        assert(s[i] as u8 == bytes[i]);
    }
    assert(text_of(bytes) =~= s);
}

/// The text of a header value is printable, and its bytes are the value's.
pub proof fn lemma_text_of(bytes: Seq<u8>)
    requires
        visible(bytes),
    ensures
        visible_text(text_of(bytes)),
        vstd::utf8::encode_utf8(text_of(bytes)) == bytes,
{
    let s = text_of(bytes);
    assert forall|i: int| 0 <= i < s.len() implies (' ' <= #[trigger] s[i] && s[i] < '\u{7f}')
        || s[i] == '\t' by {
        assert(is_visible_byte(bytes[i]));
    }
    lemma_visible_text(s);
    vstd::utf8::is_ascii_chars_encode_utf8(s);
    let encoded = vstd::utf8::encode_utf8(s);
    assert forall|i: int| 0 <= i < bytes.len() implies encoded[i] == bytes[i] by {
        assert(is_visible_byte(bytes[i]));
        assert(s[i] as u8 == encoded[i]);
    }
    assert(encoded =~= bytes);
}

/// The first value of a name as a text.
pub(crate) fn read_text<'a>(headers: &'a HeaderMap, name: &str) -> (r: Option<&'a str>)
    requires
        is_name(name@),
    ensures
        match r {
            Some(s) => first_text(header_contents(*headers), name@) == Some(s@),
            None => first_text(header_contents(*headers), name@) is None,
        },
{
    match first_value(headers, name) {
        Some(value) => match value.to_str() {
            Ok(s) => Some(s),
            Err(_) => None,
        },
        None => None,
    }
}

} // verus!
