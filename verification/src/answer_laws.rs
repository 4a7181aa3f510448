//! What holds of requests and answers: which headers go upstream, which pass
//! back, when an answer is too large, how a realm is completed, and which answers
//! the proxy makes up itself.
use crate::access_log::client_of;
use crate::engine::{
    cleaned, declared_size, exceeds, follows, forwarded, forwarded_referer, is_html, is_reply,
    kind_of, limit_overflows, opt_text, referer_of, with_absolute_realm, ProviderKind, Reply,
    Route,
};
use crate::exchange::{begins_at, leads_deeper, Direction, Opening};
use crate::headers::{
    appended, first_text, grouped, is_value, is_visible_byte, lemma_visible_text, line_view,
    line_views, name_text, no_headers, value_bytes, values_of, visible, visible_text,
};
use crate::laws::lemma_realm_literals;
use crate::number::signed_value;
use crate::pattern::{
    has_relative_realm, realm_at, realm_pattern, realm_replacement, with_realm_host,
};
use crate::text::{lemma_occurrence, replaced};
use crate::text_laws::{law_absent_texts, law_first_occurrence, law_occurs};
use axum::http::{HeaderName, HeaderValue};
use vstd::prelude::*;

verus! {

/// Whether every character is printable ASCII or a tab.
pub open spec fn is_printable(s: Seq<char>) -> bool {
    forall|i: int|
        0 <= i < s.len() ==> 32 <= (#[trigger] s[i]) as int && (s[i] as int) < 127 || s[i] as int
            == 9
}

/// The first value of a header is read as the text whose bytes it holds, where
/// the text is printable.
pub proof fn law_printable_values_are_read(
    contents: Map<Seq<char>, Seq<Seq<u8>>>,
    name: Seq<char>,
    text: Seq<char>,
)
    requires
        contents.contains_key(name),
        contents[name].len() > 0,
        contents[name][0] == vstd::utf8::encode_utf8(text),
        is_printable(text),
    ensures
        first_text(contents, name) == Some(text),
{
    assert(visible_text(text)) by {
        assert forall|i: int| 0 <= i < text.len() implies (' ' <= #[trigger] text[i] && text[i]
            < '\u{7f}') || text[i] == '\t' by {
            assert(32 <= text[i] as int && (text[i] as int) < 127 || text[i] as int == 9);
        }
    }
    lemma_visible_text(text);
}

/// A header that is not there, or whose first value holds a byte that is not
/// printable, is not read as a text.
pub proof fn law_other_values_are_not_read(
    contents: Map<Seq<char>, Seq<Seq<u8>>>,
    name: Seq<char>,
    i: int,
)
    requires
        !contents.contains_key(name) || contents[name].len() > 0 && 0 <= i < contents[name][0].len()
            && contents[name][0][i] != 9 && (contents[name][0][i] < 32 || contents[name][0][i]
            >= 127),
    ensures
        first_text(contents, name) is None,
{
    if contents.contains_key(name) {
        assert(!is_visible_byte(contents[name][0][i]));
    }
}

/// The values of a name among two lists of lines are those among the first and
/// then those among the second; a line gives its name its value.
pub proof fn law_lines_by_name(
    a: Seq<(Seq<char>, Seq<u8>)>,
    b: Seq<(Seq<char>, Seq<u8>)>,
    line: (Seq<char>, Seq<u8>),
    name: Seq<char>,
)
    ensures
        values_of(a + b, name) == values_of(a, name) + values_of(b, name),
        values_of(seq![line], line.0) == seq![line.1],
        name != line.0 ==> values_of(seq![line], name) == Seq::<Seq<u8>>::empty(),
        grouped(a).contains_key(name) <==> values_of(a, name).len() > 0,
        grouped(a).contains_key(name) ==> grouped(a)[name] == values_of(a, name),
    decreases b.len(),
{
    assert(seq![line].drop_last() =~= Seq::empty());
    assert(values_of(Seq::empty(), line.0) == Seq::<Seq<u8>>::empty());
    assert(values_of(Seq::empty(), name) == Seq::<Seq<u8>>::empty());
    assert(seq![line].last() == line);
    assert(values_of(seq![line], line.0) =~= seq![line.1]);
    if b.len() == 0 {
        assert(a + b =~= a);
        assert(values_of(a, name) + values_of(b, name) =~= values_of(a, name));
    } else {
        law_lines_by_name(a, b.drop_last(), line, name);
        assert((a + b).drop_last() =~= a + b.drop_last());
        assert((a + b).last() == b.last());
        assert(values_of(a + b, name) =~= values_of(a, name) + values_of(b, name));
    }
}

/// A list of lines is seen line by line, by names and values.
pub proof fn law_lines_are_seen_whole(lines: Seq<(HeaderName, HeaderValue)>, i: int)
    requires
        0 <= i < lines.len(),
    ensures
        line_views(lines).len() == lines.len(),
        line_views(lines)[i] == (name_text(lines[i].0), value_bytes(lines[i].1)),
        line_view(lines[i]) == line_views(lines)[i],
{
}

/// Every header of a request goes upstream but `Host`, and none is added; each
/// keeps its values, but for those of `Referer`.
pub proof fn law_forwarded_headers(
    contents: Map<Seq<char>, Seq<Seq<u8>>>,
    host: Option<Seq<char>>,
    name: Seq<char>,
)
    ensures
        forwarded(contents, host).contains_key(name) <==> contents.contains_key(name) && name
            != "host"@,
        contents.contains_key(name) && name != "host"@ && name != "referer"@ ==> forwarded(
            contents,
            host,
        )[name] == contents[name],
        forwarded(no_headers(), host) == no_headers(),
{
    assert(forwarded(no_headers(), host) =~= no_headers());
}

/// A printable value of `Referer` becomes the root of the upstream host, where
/// the host is known and makes a header value; any other value stays.
pub proof fn law_forwarded_referers(
    contents: Map<Seq<char>, Seq<Seq<u8>>>,
    host: Seq<char>,
    i: int,
)
    requires
        contents.contains_key("referer"@),
        0 <= i < contents["referer"@].len(),
    ensures
        forwarded(contents, Some(host))["referer"@].len() == contents["referer"@].len(),
        forwarded(contents, None)["referer"@] == contents["referer"@],
        ({
            let value = contents["referer"@][i];
            let root = vstd::utf8::encode_utf8("https://"@ + host + "/"@);
            let is_read = forall|k: int|
                0 <= k < value.len() ==> 32 <= #[trigger] value[k] < 127 || value[k] == 9;
            let is_sent = forall|k: int|
                0 <= k < root.len() ==> 32 <= (#[trigger] root[k]) && root[k] != 127 || root[k]
                    == 9;
            &&& is_read && is_sent ==> forwarded(contents, Some(host))["referer"@][i] == root
            &&& !(is_read && is_sent) ==> forwarded(contents, Some(host))["referer"@][i] == value
        }),
{
    reveal_strlit("host");
    reveal_strlit("referer");
    assert("host"@.len() != "referer"@.len());
    let value = contents["referer"@][i];
    let root = vstd::utf8::encode_utf8("https://"@ + host + "/"@);
    assert(visible(value) <==> forall|k: int|
        0 <= k < value.len() ==> 32 <= #[trigger] value[k] < 127 || value[k] == 9) by {
        if visible(value) {
            assert forall|k: int| 0 <= k < value.len() implies 32 <= #[trigger] value[k] < 127
                || value[k] == 9 by {
                assert(is_visible_byte(value[k]));
            }
        }
    }
    assert(is_value(root) <==> forall|k: int|
        0 <= k < root.len() ==> 32 <= (#[trigger] root[k]) && root[k] != 127 || root[k] == 9) by {
        if is_value(root) {
            assert forall|k: int| 0 <= k < root.len() implies 32 <= (#[trigger] root[k]) && root[k]
                != 127 || root[k] == 9 by {
                assert(crate::headers::is_value_byte(root[k]));
            }
        }
    }
    assert(referer_of(host) == "https://"@ + host + "/"@);
    assert(forwarded(contents, Some(host))["referer"@][i] == forwarded_referer(value, Some(host)));
    assert(forwarded(contents, None)["referer"@] =~= contents["referer"@]);
}

/// An answer that declares a size is refused under a positive limit where the
/// size is more than the limit times 1048576 bytes, and only there; the limit
/// overflows where that product does not fit in 64 bits. There is no refusal and
/// no overflow without a positive limit.
pub proof fn law_size_limit(contents: Map<Seq<char>, Seq<Seq<u8>>>, limit: i64, size: int)
    requires
        contents.contains_key("content-length"@),
        first_text(contents, "content-length"@) matches Some(text) ==> signed_value(text) == Some(
            size,
        ),
        first_text(contents, "content-length"@) is None ==> size == 0,
    ensures
        exceeds(contents, limit) <==> limit > 0 && size > limit * 1048576,
        limit_overflows(contents, limit) <==> limit > 0 && limit * 1048576
            > 0x7fff_ffff_ffff_ffff,
{
    assert(declared_size(contents) == Some(size));
}

/// An answer without a declared size, or with one that is no number, is never
/// refused.
pub proof fn law_undeclared_sizes_pass(contents: Map<Seq<char>, Seq<Seq<u8>>>, limit: i64)
    requires
        ({
            ||| !contents.contains_key("content-length"@)
            ||| first_text(contents, "content-length"@) matches Some(text) && signed_value(text)
                is None
        }),
    ensures
        !exceeds(contents, limit),
        !limit_overflows(contents, limit),
{
}

/// A larger limit passes what a smaller one passes.
pub proof fn law_larger_limits_pass_more(
    contents: Map<Seq<char>, Seq<Seq<u8>>>,
    limit: i64,
    larger: i64,
)
    requires
        0 < limit <= larger,
        !exceeds(contents, limit),
    ensures
        !exceeds(contents, larger),
{
}

/// What passes of an answer: every header but the three policies of the upstream
/// site, each with its first value alone, and nothing else.
pub proof fn law_passing_headers(contents: Map<Seq<char>, Seq<Seq<u8>>>, name: Seq<char>)
    ensures
        cleaned(contents).contains_key(name) <==> contents.contains_key(name) && name
            != "content-security-policy"@ && name != "referrer-policy"@ && name
            != "strict-transport-security"@,
        cleaned(contents).contains_key(name) ==> cleaned(contents)[name].len() == 1
            && cleaned(contents)[name][0] == contents[name][0],
{
}

/// Where a text says `realm="/` first, and a quote follows, its realm is
/// relative.
proof fn lemma_relative_realm(front: Seq<char>, rest: Seq<char>)
    requires
        rest.contains('"'),
        forall|j: int|
            0 <= j < front.len() ==> !"realm=\"/"@.is_prefix_of(
                #[trigger] (front + "realm=\"/"@ + rest).skip(j),
            ),
    ensures
        has_relative_realm(front + "realm=\"/"@ + rest),
        realm_at(front + "realm=\"/"@ + rest) == Some(front.len() as int),
{
    let text = front + "realm=\"/"@ + rest;
    lemma_realm_literals();
    law_first_occurrence(front, "realm=\"/"@, rest);
    assert(text.skip(front.len() as int + 8) =~= rest);
}

/// The first relative realm of the first challenge gets the scheme and the host
/// that the client asked; all else of the challenge, the other challenges and the
/// other headers stay.
pub proof fn law_relative_realm_is_completed(
    contents: Map<Seq<char>, Seq<Seq<u8>>>,
    request: Map<Seq<char>, Seq<Seq<u8>>>,
    front: Seq<char>,
    rest: Seq<char>,
    host: Seq<char>,
    name: Seq<char>,
    i: int,
)
    requires
        contents.contains_key("www-authenticate"@),
        contents["www-authenticate"@].len() > 0,
        first_text(contents, "www-authenticate"@) == Some(front + "realm=\"/"@ + rest),
        first_text(request, "host"@) == Some(host),
        rest.contains('"'),
        forall|j: int|
            0 <= j < front.len() ==> !"realm=\"/"@.is_prefix_of(
                #[trigger] (front + "realm=\"/"@ + rest).skip(j),
            ),
    ensures
        ({
            let completed = with_absolute_realm(contents, request);
            &&& completed["www-authenticate"@][0] == vstd::utf8::encode_utf8(
                front + "realm=\"https://"@ + host + "/"@ + rest,
            )
            &&& completed["www-authenticate"@].len() == contents["www-authenticate"@].len()
            &&& 0 < i < contents["www-authenticate"@].len() ==> completed["www-authenticate"@][i]
                == contents["www-authenticate"@][i]
            &&& completed.contains_key(name) <==> contents.contains_key(name)
            &&& name != "www-authenticate"@ && contents.contains_key(name) ==> completed[name]
                == contents[name]
        }),
{
    let text = front + "realm=\"/"@ + rest;
    let whole = front + "realm=\"https://"@ + host + "/"@ + rest;
    lemma_relative_realm(front, rest);
    lemma_realm_literals();
    let n = front.len() as int;
    let quoted = "realm=\"/"@;
    assert(text.take(n + 7) =~= front + quoted.take(7));
    assert(text.skip(n + 7) =~= seq![quoted[7]] + rest);
    assert(with_realm_host(text, host) =~= whole) by {
        assert(with_realm_host(text, host) == text.take(n + 7) + "https://"@ + host + text.skip(
            n + 7,
        ));
        assert(whole =~= front + (quoted.take(7) + "https://"@) + host + (seq![quoted[7]] + rest));
    }
}

/// An answer stays where it has no readable challenge, where the client names no
/// readable host, and where the challenge has no `realm="/` that a quote follows.
pub proof fn law_other_realms_stay(
    contents: Map<Seq<char>, Seq<Seq<u8>>>,
    request: Map<Seq<char>, Seq<Seq<u8>>>,
)
    requires
        ({
            ||| first_text(contents, "www-authenticate"@) is None
            ||| first_text(request, "host"@) is None
            ||| first_text(contents, "www-authenticate"@) matches Some(text) && forall|j: int|
                0 <= j <= text.len() && "realm=\"/"@.is_prefix_of(#[trigger] text.skip(j))
                    ==> !text.skip(j + 8).contains('"')
        }),
    ensures
        with_absolute_realm(contents, request) == contents,
{
    match first_text(contents, "www-authenticate"@) {
        Some(text) => {
            lemma_realm_literals();
            let quoted = "realm=\"/"@;
            lemma_occurrence(text, quoted, 0);
            match realm_at(text) {
                Some(j) => {
                    assert(text.skip(j).subrange(0, 8) =~= quoted) by {
                        assert(text.skip(j).subrange(0, 8) =~= text.subrange(j, j + 8));
                    }
                    assert(quoted.is_prefix_of(text.skip(j)));
                },
                None => {},
            }
        },
        None => {},
    }
}

/// A relative realm is found as a quoted path, and replaced by itself behind the
/// scheme and the host, in which two dollar signs stand for one.
pub proof fn law_realm_expressions(host: Seq<char>)
    ensures
        realm_pattern() == "realm=\"/([^\"]*)\""@,
        realm_replacement(host) == "realm=\"https://"@ + replaced(host, "$"@, "$$"@) + "/$1\""@,
        !host.contains('$') ==> realm_replacement(host) == "realm=\"https://"@ + host + "/$1\""@,
{
    reveal_strlit("$");
    if !host.contains('$') {
        assert forall|j: int| 0 <= j <= host.len() implies !"$"@.is_prefix_of(
            #[trigger] host.skip(j),
        ) by {
            if "$"@.is_prefix_of(host.skip(j)) {
                assert(host.skip(j).subrange(0, 1)[0] == '$');
                assert(host[j] == '$');
                assert(host.contains('$'));
            }
        }
        law_absent_texts(host, "$"@, "$$"@);
    }
}

/// An answer is a page where its content type holds `text/html`, and only there.
pub proof fn law_pages(
    contents: Map<Seq<char>, Seq<Seq<u8>>>,
    front: Seq<char>,
    back: Seq<char>,
)
    ensures
        first_text(contents, "content-type"@) == Some(front + "text/html"@ + back) ==> is_html(
            contents,
        ),
        first_text(contents, "content-type"@) is None ==> !is_html(contents),
        is_html(contents) ==> {
            let kind = first_text(contents, "content-type"@)->0;
            exists|i: int|
                0 <= i <= kind.len() - 9 && kind == #[trigger] kind.take(i) + "text/html"@
                    + kind.skip(i + 9)
        },
{
    reveal_strlit("text/html");
    let kind = first_text(contents, "content-type"@)->0;
    law_occurs(front, "text/html"@, back, kind);
}

/// An added value comes behind the values of its name; other names stay.
pub proof fn law_added_value(
    contents: Map<Seq<char>, Seq<Seq<u8>>>,
    name: Seq<char>,
    value: Seq<u8>,
    other: Seq<char>,
)
    ensures
        appended(contents, name, value).contains_key(name),
        contents.contains_key(name) ==> appended(contents, name, value)[name] == contents[name]
            + seq![value],
        !contents.contains_key(name) ==> appended(contents, name, value)[name] == seq![value],
        other != name ==> appended(contents, name, value).contains_key(other)
            == contents.contains_key(other) && appended(contents, name, value)[other]
            == contents[other],
{
    if contents.contains_key(name) {
        assert(appended(contents, name, value)[name] =~= contents[name] + seq![value]);
    }
}

/// A request is logged with the client that it names, or as of an unknown one.
pub proof fn law_logged_client(contents: Map<Seq<char>, Seq<Seq<u8>>>, agent: Seq<char>)
    ensures
        first_text(contents, "user-agent"@) == Some(agent) ==> client_of(contents) == agent,
        first_text(contents, "user-agent"@) is None ==> client_of(contents) == "unknown"@,
{
}

/// A request is treated as its provider's kind, and as explicit without one.
pub proof fn law_kinds(kind: ProviderKind)
    ensures
        kind_of(Some(kind)) == kind,
        kind_of(None) == ProviderKind::Explicit,
{
}

/// A followed route names the URL, the depth and the provider.
pub proof fn law_followed_routes(
    route: Route,
    url: Seq<char>,
    depth: int,
    provider: Option<ProviderKind>,
)
    requires
        follows(route, url, depth, provider),
    ensures
        route matches Route::Follow { url: u, depth: d, provider: p } && u@ == url && d == depth
            && p == provider,
{
}

/// A reply has its status and its body, and an optional text is its text.
pub proof fn law_replies(reply: Reply, status: u16, body: Seq<char>, s: String)
    ensures
        is_reply(reply, status, body) <==> reply.status == status && reply.body@ == body,
        opt_text(Some(s)) == Some(s@),
        opt_text(None) is None,
{
}

/// An exchange is admitted after fewer than ten redirects, and refused with
/// status 508 after ten or more; a followed redirect counts one more.
pub proof fn law_depths(opening: Opening, direction: Direction, depth: u8)
    ensures
        begins_at(opening, depth) && depth < 10 ==> (opening matches Opening::Ask(asked, _)
            && asked.depth() == depth),
        begins_at(opening, depth) && depth >= 10 ==> (opening matches Opening::Reply(reply)
            && reply.status == 508 && reply.body@ == "Too many redirects."@),
        leads_deeper(direction, depth) ==> (direction matches Direction::Follow { depth: next, .. }
            ==> next == depth + 1),
{
}

} // verus!
