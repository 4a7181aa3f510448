//! The rules of the forwarding engine: what is asked of an upstream server,
//! what is let through of its answer, and where a redirect leads.
pub use crate::access::check_list;
use crate::config::{Config, MappingView, RegistryMapping};
use crate::headers::{
    all_lines, appended, contains_name, first_text, first_value, grouped, header_contents,
    is_value, lemma_names, lemma_text_of, lemma_visible_text, line_view, line_views, name_text,
    no_headers, read_text, replace_first, try_append, try_insert, usize_value, value_bytes,
    values_of, visible, visible_text, ROOMY,
};
use crate::number::{decimal, parse_i64, signed_value};
use crate::pattern::{
    has_relative_realm, is_match, realm_at, realm_replacement, replace_match, with_realm_host,
};
use crate::text::{
    before, chars_of, contains, head, lemma_occurrence, occurs, replace, same, starts_with,
};
use axum::http::{HeaderMap, HeaderName, HeaderValue};
use vstd::prelude::*;

verus! {

/// The index behind the last colon of a text; zero where it has none.
pub open spec fn last_colon(s: Seq<char>) -> int
    decreases s.len(),
{
    if s.len() == 0 || s.last() == ':' {
        s.len() as int
    } else {
        last_colon(s.drop_last())
    }
}

/// A text in which every character is a decimal digit.
pub open spec fn only_digits(s: Seq<char>) -> bool {
    forall|i: int| 0 <= i < s.len() ==> '0' <= #[trigger] s[i] && s[i] <= '9'
}

/// A host and port without the colon and the digits of the port.
pub open spec fn without_port(s: Seq<char>) -> Seq<char> {
    if last_colon(s) > 0 && only_digits(s.skip(last_colon(s))) {
        s.take(last_colon(s) - 1)
    } else {
        s
    }
}

/// The host of an `https` or `http` URL, with its port where it has one.
pub open spec fn url_authority(url: Seq<char>) -> Option<Seq<char>> {
    if "https://"@.is_prefix_of(url) {
        Some(before(url.skip(8), '/'))
    } else if "http://"@.is_prefix_of(url) {
        Some(before(url.skip(7), '/'))
    } else {
        None
    }
}

/// The host of an `https` or `http` URL, without its port.
pub open spec fn url_host(url: Seq<char>) -> Option<Seq<char>> {
    match url_authority(url) {
        Some(authority) => Some(without_port(authority)),
        None => None,
    }
}

proof fn lemma_last_colon(s: Seq<char>, k: int)
    requires
        0 <= k <= s.len(),
        k > 0 ==> s[k - 1] == ':',
        forall|j: int| k <= j < s.len() ==> s[j] != ':',
    ensures
        last_colon(s) == k,
    decreases s.len(),
{
    if k < s.len() {
        lemma_last_colon(s.drop_last(), k);
    }
}

/// A host and port without the colon and the digits of the port.
fn cut_port<'a>(s: &'a str) -> (r: &'a str)
    ensures
        r@ == without_port(s@),
{
    let x: Vec<char> = chars_of(s);
    let mut i: usize = x.len();
    let mut digits: bool = true;
    while i > 0
        invariant
            i <= x.len(),
            x@ == s@,
            digits == only_digits(s@.skip(i as int)),
            forall|j: int| i <= j < s@.len() ==> s@[j] != ':',
        decreases i,
    {
        let c: char = x[i - 1];
        if c == ':' {
            proof {
                lemma_last_colon(s@, i as int);
            }
            if digits {
                return s.substring_char(0, i - 1);
            }
            return s;
        }
        proof {
            let tail = s@.skip(i as int);
            let longer = s@.skip(i - 1);
            assert(longer[0] == c);
            assert(forall|j: int| 0 <= j < tail.len() ==> tail[j] == longer[j + 1]);
            if digits && '0' <= c && c <= '9' {
                assert forall|j: int| 0 <= j < longer.len() implies '0' <= #[trigger] longer[j]
                    && longer[j] <= '9' by {
                    if j > 0 {
                        assert(tail[j - 1] == longer[j]);
                    }
                }
            } else if !digits {
                let j = choose|j: int|
                    0 <= j < tail.len() && !('0' <= #[trigger] tail[j] && tail[j] <= '9');
                assert(longer[j + 1] == tail[j]);
            }
        }
        digits = digits && '0' <= c && c <= '9';
        i -= 1;
    }
    proof {
        lemma_last_colon(s@, 0);
    }
    s
}

/// The host of a URL, with its port where it has one.
fn extract_authority(url: &str) -> (r: Option<&str>)
    ensures
        match r {
            Some(authority) => url_authority(url@) == Some(authority@),
            None => url_authority(url@) is None,
        },
{
    proof {
        reveal_strlit("https://");
        reveal_strlit("http://");
    }
    if starts_with(url, "https://") {
        let rest = url.substring_char(8, url.unicode_len());
        assert(rest@ =~= url@.skip(8));
        Some(head(rest, '/'))
    } else if starts_with(url, "http://") {
        let rest = url.substring_char(7, url.unicode_len());
        assert(rest@ =~= url@.skip(7));
        Some(head(rest, '/'))
    } else {
        None
    }
}

/// The host of a URL, without its port.
pub fn extract_host(url: &str) -> (r: Option<&str>)
    ensures
        match r {
            Some(host) => url_host(url@) == Some(host@),
            None => url_host(url@) is None,
        },
{
    match extract_authority(url) {
        Some(authority) => Some(cut_port(authority)),
        None => None,
    }
}

/// How many times upstream servers are asked for one request of a client, each
/// time but the first for a redirect.
pub const MAX_REDIRECTS: u8 = 10;

/// An answer that the proxy makes up itself.
pub struct Reply {
    pub status: u16,
    pub body: String,
}

/// Whether a reply has the given status and body.
pub open spec fn is_reply(reply: Reply, status: u16, body: Seq<char>) -> bool {
    reply.status == status && reply.body@ == body
}

/// A reply with the given status and body.
pub(crate) fn make_reply(status: u16, body: &str) -> (r: Reply)
    ensures
        is_reply(r, status, body@),
{
    Reply { status, body: body.to_owned() }
}

/// The account that the proxy logs in with at an upstream server.
pub struct Credentials {
    pub username: String,
    pub password: String,
}

/// A request to an upstream server.
pub struct UpstreamRequest {
    /// The header lines of the request.
    pub lines: Vec<(HeaderName, HeaderValue)>,
    /// The account to log in with.
    pub credentials: Option<Credentials>,
}

/// The referer that a request to a host carries.
pub open spec fn referer_of(host: Seq<char>) -> Seq<char> {
    "https://"@ + host + "/"@
}

/// The value that is forwarded for a value of the `Referer` header: that of
/// the upstream host, where the host is known and makes a header value and
/// the client's value is a text; else the client's own.
pub open spec fn forwarded_referer(value: Seq<u8>, host: Option<Seq<char>>) -> Seq<u8> {
    match host {
        Some(h) => if visible(value) && is_value(vstd::utf8::encode_utf8(referer_of(h))) {
            vstd::utf8::encode_utf8(referer_of(h))
        } else {
            value
        },
        None => value,
    }
}

/// The headers that are forwarded of a client's: all but `Host`, with the
/// `Referer` of the upstream host.
pub open spec fn forwarded(
    contents: Map<Seq<char>, Seq<Seq<u8>>>,
    host: Option<Seq<char>>,
) -> Map<Seq<char>, Seq<Seq<u8>>> {
    Map::new(
        |name: Seq<char>| contents.contains_key(name) && name != "host"@,
        |name: Seq<char>|
            if name == "referer"@ {
                contents[name].map_values(|value: Seq<u8>| forwarded_referer(value, host))
            } else {
                contents[name]
            },
    )
}

/// What is forwarded of the values of a name.
spec fn forwarded_values(
    values: Seq<Seq<u8>>,
    name: Seq<char>,
    host: Option<Seq<char>>,
) -> Seq<Seq<u8>> {
    if name == "host"@ {
        Seq::empty()
    } else if name == "referer"@ {
        values.map_values(|value: Seq<u8>| forwarded_referer(value, host))
    } else {
        values
    }
}

/// The text of an optional string.
pub open spec fn opt_text(s: Option<String>) -> Option<Seq<char>> {
    match s {
        Some(t) => Some(t@),
        None => None,
    }
}

/// The value that is forwarded for a value of the `Referer` header.
fn forward_referer(value: HeaderValue, host: &Option<String>) -> (r: HeaderValue)
    ensures
        value_bytes(r) == forwarded_referer(value_bytes(value), opt_text(*host)),
{
    let readable: bool = match value.to_str() {
        Ok(_) => true,
        Err(_) => false,
    };
    match host {
        Some(h) => {
            if readable {
                let mut referer: String = String::new();
                referer.append("https://");
                referer.append(h.as_str());
                referer.append("/");
                assert(referer@ =~= referer_of(h@));
                match HeaderValue::from_str(referer.as_str()) {
                    Ok(v) => {
                        return v;
                    },
                    Err(_) => {},
                }
            }
            value
        },
        None => value,
    }
}

/// One more line adds its value to the values of its name.
proof fn lemma_values_push(
    lines: Seq<(Seq<char>, Seq<u8>)>,
    line: (Seq<char>, Seq<u8>),
    name: Seq<char>,
)
    ensures
        values_of(lines.push(line), name) == if line.0 == name {
            values_of(lines, name).push(line.1)
        } else {
            values_of(lines, name)
        },
{
    assert(lines.push(line).drop_last() =~= lines);
}

/// The header lines that are forwarded of a client's.
pub fn forward_lines(headers: &HeaderMap, host: &Option<String>) -> (lines: Vec<
    (HeaderName, HeaderValue),
>)
    ensures
        grouped(line_views(lines@)) == forwarded(header_contents(*headers), opt_text(*host)),
{
    let all: Vec<(HeaderName, HeaderValue)> = all_lines(headers);
    let ghost views = line_views(all@);
    let ghost h = opt_text(*host);
    let mut lines: Vec<(HeaderName, HeaderValue)> = Vec::new();
    assert(line_views(lines@) =~= Seq::empty());
    assert(views.take(0) =~= Seq::empty());
    assert(forall|name: Seq<char>|
        #![trigger values_of(line_views(lines@), name)]
        values_of(line_views(lines@), name) =~= forwarded_values(
            values_of(views.take(0), name),
            name,
            h,
        ));
    for line in it: all
        invariant
            it.seq() == all@,
            views == line_views(all@),
            h == opt_text(*host),
            forall|name: Seq<char>|
                #![trigger values_of(line_views(lines@), name)]
                values_of(line_views(lines@), name) == forwarded_values(
                    values_of(views.take(it.index() as int), name),
                    name,
                    h,
                ),
    {
        let ghost i = it.index() as int;
        let ghost before_push = line_views(lines@);
        let ghost v = line_view(line);
        proof {
            assert(views[i] == v);
            assert(views.take(i + 1) =~= views.take(i).push(v));
            assert forall|name: Seq<char>|
                values_of(views.take(i + 1), name) == if v.0 == name {
                    values_of(views.take(i), name).push(v.1)
                } else {
                    values_of(views.take(i), name)
                } by {
                lemma_values_push(views.take(i), v, name);
            }
        }
        let (name, value) = line;
        if same(name.as_str(), "host") {
            assert(forall|n: Seq<char>|
                #![trigger values_of(line_views(lines@), n)]
                values_of(line_views(lines@), n) == forwarded_values(
                    values_of(views.take(i + 1), n),
                    n,
                    h,
                ));
        } else {
            let forwarded_value: HeaderValue = if same(name.as_str(), "referer") {
                forward_referer(value, host)
            } else {
                value
            };
            let ghost w = (name_text(name), value_bytes(forwarded_value));
            lines.push((name, forwarded_value));
            proof {
                assert(line_views(lines@) =~= before_push.push(w));
                assert forall|n: Seq<char>|
                    #![trigger values_of(line_views(lines@), n)]
                    values_of(line_views(lines@), n) == forwarded_values(
                        values_of(views.take(i + 1), n),
                        n,
                        h,
                    ) by {
                    lemma_values_push(before_push, w, n);
                    lemma_values_push(views.take(i), v, n);
                    assert(values_of(before_push, n) == forwarded_values(
                        values_of(views.take(i), n),
                        n,
                        h,
                    ));
                    assert(values_of(line_views(lines@), n) =~= forwarded_values(
                        values_of(views.take(i + 1), n),
                        n,
                        h,
                    ));
                }
            }
        }
    }
    proof {
        assert(views.take(views.len() as int) =~= views);
        assert(grouped(line_views(lines@)) =~= forwarded(header_contents(*headers), h)) by {
            assert forall|name: Seq<char>|
                #![trigger values_of(line_views(lines@), name)]
                values_of(line_views(lines@), name) == forwarded_values(
                    values_of(views, name),
                    name,
                    h,
                ) by {}
        }
    }
    lines
}

/// Whether the host of a URL is a host of the settings: with its port, or
/// without it where the settings name no port.
pub open spec fn is_at(authority: Seq<char>, host: Seq<char>) -> bool {
    authority == host || without_port(authority) == host
}

/// Whether the proxy has an account at the host of a URL, by the mapping of a
/// registry.
pub open spec fn has_account_at(mapping: MappingView, authority: Seq<char>) -> bool {
    mapping.enabled && mapping.username.len() > 0 && (is_at(authority, mapping.upstream) || is_at(
        authority,
        before(mapping.auth_host, '/'),
    ))
}

/// The first registry whose account the proxy has at the host of a URL.
pub open spec fn account_at(
    registries: Seq<(Seq<char>, MappingView)>,
    authority: Seq<char>,
) -> Option<MappingView>
    decreases registries.len(),
{
    if registries.len() == 0 {
        None
    } else if has_account_at(registries[0].1, authority) {
        Some(registries[0].1)
    } else {
        account_at(registries.drop_first(), authority)
    }
}

/// The account that a request logs in with: that of the host of its URL, where
/// the client brings no authorization of its own.
pub open spec fn account_for(
    contents: Map<Seq<char>, Seq<Seq<u8>>>,
    url: Seq<char>,
    registries: Seq<(Seq<char>, MappingView)>,
) -> Option<MappingView> {
    if contents.contains_key("authorization"@) {
        None
    } else {
        match url_authority(url) {
            Some(authority) => account_at(registries, authority),
            None => None,
        }
    }
}

/// Whether credentials are those of an account.
pub open spec fn are_credentials_of(
    credentials: Option<Credentials>,
    account: Option<MappingView>,
) -> bool {
    match (credentials, account) {
        (Some(c), Some(a)) => c.username@ == a.username && c.password@ == a.password,
        (None, None) => true,
        _ => false,
    }
}

/// The credentials that a request logs in with.
pub fn select_credentials(headers: &HeaderMap, url: &str, config: &Config) -> (r: Option<
    Credentials,
>)
    ensures
        are_credentials_of(
            r,
            account_for(header_contents(*headers), url@, config.docker.registries@),
        ),
{
    proof {
        lemma_names();
    }
    if contains_name(headers, &HeaderName::from_static("authorization")) {
        return None;
    }
    let authority: &str = match extract_authority(url) {
        Some(authority) => authority,
        None => {
            return None;
        },
    };
    let host: &str = match extract_host(url) {
        Some(host) => host,
        None => {
            return None;
        },
    };
    let ghost all = config.docker.registries@;
    let n: usize = config.docker.registries.len();
    let mut i: usize = 0;
    assert(all.skip(0) =~= all);
    while i < n
        invariant
            i <= n,
            n == all.len(),
            all == config.docker.registries@,
            host@ == without_port(authority@),
            account_at(all, authority@) == account_at(all.skip(i as int), authority@),
            account_for(header_contents(*headers), url@, all) == account_at(all, authority@),
        decreases n - i,
    {
        let mapping: &RegistryMapping = config.docker.registries.mapping(i);
        assert(all.skip(i as int).drop_first() =~= all.skip(i + 1));
        let upstream: &str = mapping.upstream.as_str();
        let token_host: &str = head(mapping.auth_host.as_str(), '/');
        if mapping.enabled && !mapping.username.as_str().is_empty() && (same(authority, upstream)
            || same(host, upstream) || same(authority, token_host) || same(host, token_host)) {
            return Some(
                Credentials {
                    username: mapping.username.clone(),
                    password: mapping.password.clone(),
                },
            );
        }
        i += 1;
    }
    None
}

/// The request to an upstream server that a client's request becomes, or the
/// refusal of a request that has been redirected too often.
pub fn open_request(
    depth: u8,
    headers: &HeaderMap,
    url: &str,
    host: &Option<String>,
    config: &Config,
) -> (r: Result<UpstreamRequest, Reply>)
    ensures
        match r {
            Ok(request) => depth < MAX_REDIRECTS && grouped(line_views(request.lines@))
                == forwarded(header_contents(*headers), opt_text(*host)) && are_credentials_of(
                request.credentials,
                account_for(header_contents(*headers), url@, config.docker.registries@),
            ),
            Err(reply) => depth >= MAX_REDIRECTS && is_reply(
                reply,
                508,
                "Too many redirects."@,
            ),
        },
{
    if depth >= MAX_REDIRECTS {
        return Err(make_reply(508, "Too many redirects."));
    }
    Ok(
        UpstreamRequest {
            lines: forward_lines(headers, host),
            credentials: select_credentials(headers, url, config),
        },
    )
}

/// The answer where an upstream server cannot be reached.
pub fn send_failure(error: &str) -> (r: Reply)
    ensures
        is_reply(r, 500, "server error "@ + error@),
{
    let mut body: String = String::new();
    body.append("server error ");
    body.append(error);
    assert(body@ =~= "server error "@ + error@);
    Reply { status: 500, body }
}

/// The answer where the body of an upstream answer cannot be read.
pub fn read_failure(error: &str) -> (r: Reply)
    ensures
        is_reply(r, 500, "read error "@ + error@),
{
    let mut body: String = String::new();
    body.append("read error ");
    body.append(error);
    assert(body@ =~= "read error "@ + error@);
    Reply { status: 500, body }
}

/// The size that an answer declares, where it declares one that is a number.
/// A declaration that is no text counts as zero.
pub open spec fn declared_size(contents: Map<Seq<char>, Seq<Seq<u8>>>) -> Option<int> {
    if contents.contains_key("content-length"@) {
        match first_text(contents, "content-length"@) {
            Some(text) => signed_value(text),
            None => Some(0),
        }
    } else {
        None
    }
}

/// A size in MiB as a number of bytes.
pub open spec fn mebibytes(n: i64) -> int {
    n * 1048576
}

/// Whether there is a limit to hold an answer to, and the limit in bytes is
/// too large a number.
pub open spec fn limit_overflows(contents: Map<Seq<char>, Seq<Seq<u8>>>, limit: i64) -> bool {
    declared_size(contents) is Some && limit > 0 && mebibytes(limit) > i64::MAX
}

/// Whether an answer declares more than the limit allows.
pub open spec fn exceeds(contents: Map<Seq<char>, Seq<Seq<u8>>>, limit: i64) -> bool {
    declared_size(contents) is Some && limit > 0 && declared_size(contents)->0 > mebibytes(limit)
}

/// What holding an answer to the size limit comes to.
#[derive(Clone, Copy, PartialEq, Eq, Structural, Debug)]
pub enum SizeCheck {
    /// The answer may pass.
    Passes,
    /// The answer is too large.
    TooLarge,
    /// The limit in bytes does not fit in 64 bits.
    LimitOverflow,
}

/// Holds an answer to the size limit.
pub fn check_size(headers: &HeaderMap, limit: i64) -> (r: SizeCheck)
    ensures
        match r {
            SizeCheck::LimitOverflow => limit_overflows(header_contents(*headers), limit),
            SizeCheck::TooLarge => !limit_overflows(header_contents(*headers), limit) && exceeds(
                header_contents(*headers),
                limit,
            ),
            SizeCheck::Passes => !limit_overflows(header_contents(*headers), limit) && !exceeds(
                header_contents(*headers),
                limit,
            ),
        },
{
    proof {
        lemma_names();
    }
    let size: Option<i64> = match first_value(headers, "content-length") {
        Some(value) => match value.to_str() {
            Ok(text) => parse_i64(text),
            Err(_) => Some(0),
        },
        None => None,
    };
    match size {
        Some(n) => {
            if limit > 0 {
                if limit > 0x7fff_ffff_ffff_ffff / 1048576 {
                    return SizeCheck::LimitOverflow;
                }
                if n > limit * 1048576 {
                    return SizeCheck::TooLarge;
                }
            }
            SizeCheck::Passes
        },
        None => SizeCheck::Passes,
    }
}

/// A header that only the upstream site may set for itself.
pub open spec fn is_site_policy(name: Seq<char>) -> bool {
    name == "content-security-policy"@ || name == "referrer-policy"@ || name
        == "strict-transport-security"@
}

/// The headers that pass of an answer: the first value of each name, but none
/// of the upstream site's policies.
pub open spec fn cleaned(contents: Map<Seq<char>, Seq<Seq<u8>>>) -> Map<Seq<char>, Seq<Seq<u8>>> {
    Map::new(
        |name: Seq<char>| contents.contains_key(name) && !is_site_policy(name),
        |name: Seq<char>| seq![contents[name][0]],
    )
}

/// A `HeaderMap` that has no room for one more name.
#[derive(Clone, Copy, PartialEq, Eq, Structural, Debug)]
pub struct HeaderOverflow;

/// The names of a list of header lines.
spec fn line_names(lines: Seq<(Seq<char>, Seq<u8>)>) -> Seq<Seq<char>> {
    lines.map_values(|line: (Seq<char>, Seq<u8>)| line.0)
}

/// A name that has values is the name of a line.
proof fn lemma_value_has_line(lines: Seq<(Seq<char>, Seq<u8>)>, name: Seq<char>)
    ensures
        values_of(lines, name).len() > 0 ==> line_names(lines).contains(name),
    decreases lines.len(),
{
    if lines.len() > 0 {
        lemma_value_has_line(lines.drop_last(), name);
        let names = line_names(lines);
        assert(names.last() == lines.last().0);
        assert(names[names.len() - 1] == lines.last().0);
        if line_names(lines.drop_last()).contains(name) {
            let k = line_names(lines.drop_last()).index_of(name);
            assert(names[k] == name);
        }
    }
}

/// A list of header lines has finitely many names.
proof fn lemma_grouped_finite(lines: Seq<(Seq<char>, Seq<u8>)>)
    ensures
        grouped(lines).dom().finite(),
{
    let names = line_names(lines).to_set();
    vstd::seq_lib::seq_to_set_is_finite(line_names(lines));
    assert forall|name: Seq<char>| grouped(lines).dom().contains(name) implies names.contains(
        name,
    ) by {
        lemma_value_has_line(lines, name);
    }
    vstd::set_lib::lemma_len_subset(grouped(lines).dom(), names);
}

/// The values of a name among the first lines are among the values of all.
proof fn lemma_values_prefix(lines: Seq<(Seq<char>, Seq<u8>)>, k: int, name: Seq<char>)
    requires
        0 <= k <= lines.len(),
    ensures
        values_of(lines.take(k), name).len() <= values_of(lines, name).len(),
    decreases lines.len() - k,
{
    if k < lines.len() {
        lemma_values_prefix(lines, k + 1, name);
        assert(lines.take(k + 1).drop_last() =~= lines.take(k));
    } else {
        assert(lines.take(k) =~= lines);
    }
}

/// The headers that pass of an answer. A map of few names always has room for
/// them.
pub fn clean_headers(headers: &HeaderMap) -> (r: Result<HeaderMap, HeaderOverflow>)
    ensures
        r matches Ok(passed) ==> header_contents(passed) == cleaned(header_contents(*headers)),
        header_contents(*headers).dom().len() <= ROOMY ==> r is Ok,
{
    let all: Vec<(HeaderName, HeaderValue)> = all_lines(headers);
    let ghost views = line_views(all@);
    let mut passed: HeaderMap = HeaderMap::new();
    proof {
        assert(views.take(0) =~= Seq::empty());
        assert(no_headers() =~= cleaned(grouped(views.take(0))));
        lemma_grouped_finite(views);
    }
    for line in it: all
        invariant
            it.seq() == all@,
            views == line_views(all@),
            header_contents(*headers) == grouped(views),
            grouped(views).dom().finite(),
            header_contents(passed) == cleaned(grouped(views.take(it.index() as int))),
    {
        let ghost i = it.index() as int;
        let ghost v = line_view(line);
        let ghost done = grouped(views.take(i));
        proof {
            assert(views[i] == v);
            assert(views.take(i + 1) =~= views.take(i).push(v));
            assert forall|name: Seq<char>|
                #![trigger values_of(views.take(i + 1), name)]
                values_of(views.take(i + 1), name) == if v.0 == name {
                    values_of(views.take(i), name).push(v.1)
                } else {
                    values_of(views.take(i), name)
                } by {
                lemma_values_push(views.take(i), v, name);
            }
            assert forall|name: Seq<char>| cleaned(done).dom().contains(name) implies grouped(
                views,
            ).dom().contains(name) by {
                lemma_values_prefix(views, i, name);
            }
            vstd::set_lib::lemma_len_subset(cleaned(done).dom(), grouped(views).dom());
        }
        let (name, value) = line;
        let is_policy: bool = same(name.as_str(), "content-security-policy") || same(
            name.as_str(),
            "referrer-policy",
        ) || same(name.as_str(), "strict-transport-security");
        if is_policy || contains_name(&passed, &name) {
            assert(cleaned(grouped(views.take(i + 1))) =~= cleaned(done));
        } else {
            assert(cleaned(grouped(views.take(i + 1))) =~= cleaned(done).insert(v.0, seq![v.1]));
            if !try_insert(&mut passed, name, value) {
                return Err(HeaderOverflow);
            }
        }
    }
    assert(views.take(views.len() as int) =~= views);
    Ok(passed)
}

/// The headers of an answer after its first challenge has been replaced.
pub open spec fn with_challenge(
    contents: Map<Seq<char>, Seq<Seq<u8>>>,
    challenge: Seq<char>,
) -> Map<Seq<char>, Seq<Seq<u8>>> {
    contents.insert(
        "www-authenticate"@,
        contents["www-authenticate"@].update(0, vstd::utf8::encode_utf8(challenge)),
    )
}

/// The headers of an answer whose first relative realm begins with the scheme
/// and the host that the client asked.
pub open spec fn with_absolute_realm(
    contents: Map<Seq<char>, Seq<Seq<u8>>>,
    request: Map<Seq<char>, Seq<Seq<u8>>>,
) -> Map<Seq<char>, Seq<Seq<u8>>> {
    match (first_text(contents, "www-authenticate"@), first_text(request, "host"@)) {
        (Some(challenge), Some(host)) => if has_relative_realm(challenge) {
            with_challenge(contents, with_realm_host(challenge, host))
        } else {
            contents
        },
        _ => contents,
    }
}

/// A printable text stays printable when its realm gets a printable host.
pub proof fn lemma_realm_visible(text: Seq<char>, host: Seq<char>)
    requires
        visible_text(text),
        visible_text(host),
        has_relative_realm(text),
    ensures
        visible_text(with_realm_host(text, host)),
{
    reveal_strlit("https://");
    reveal_strlit("realm=\"/");
    lemma_occurrence(text, "realm=\"/"@, 0);
    let i = realm_at(text)->0 + 7;
    let r = with_realm_host(text, host);
    assert forall|k: int| 0 <= k < r.len() implies (' ' <= #[trigger] r[k] && r[k] < '\u{7f}')
        || r[k] == '\t' by {
        if k < i {
            assert(r[k] == text[k]);
        } else if k < i + 8 {
            assert(r[k] == "https://"@[k - i]);
        } else if k < i + 8 + host.len() {
            assert(r[k] == host[k - i - 8]);
        } else {
            assert(r[k] == text[k - 8 - host.len()]);
        }
    }
}

/// Completes a relative realm in the first challenge of an answer by the host
/// that the client asked, so that clients need not resolve it. Every other
/// part of the challenge, and every other header, stays as it is.
pub fn complete_realm(headers: &mut HeaderMap, request: &HeaderMap)
    ensures
        header_contents(*final(headers)) == with_absolute_realm(
            header_contents(*old(headers)),
            header_contents(*request),
        ),
{
    proof {
        lemma_names();
        reveal_strlit("$");
    }
    let challenge: String = match read_text(headers, "www-authenticate") {
        Some(text) => text.to_owned(),
        None => {
            return;
        },
    };
    let host: &str = match read_text(request, "host") {
        Some(text) => text,
        None => {
            return;
        },
    };
    let found: bool = match is_match("realm=\"/([^\"]*)\"", challenge.as_str()) {
        Some(found) => found,
        None => false,
    };
    if !found {
        return;
    }
    let mut replacement: String = String::new();
    replacement.append("realm=\"https://");
    let escaped_host: String = replace(host, "$", "$$");
    replacement.append(escaped_host.as_str());
    replacement.append("/$1\"");
    proof {
        assert(replacement@ =~= realm_replacement(host@));
        lemma_text_of(header_contents(*headers)["www-authenticate"@][0]);
        lemma_text_of(header_contents(*request)["host"@][0]);
        lemma_realm_visible(challenge@, host@);
        lemma_visible_text(with_realm_host(challenge@, host@));
    }
    match replace_match("realm=\"/([^\"]*)\"", challenge.as_str(), replacement.as_str()) {
        Some(completed) => match HeaderValue::from_str(completed.as_str()) {
            Ok(value) => replace_first(headers, "www-authenticate", value),
            Err(_) => {},
        },
        None => {},
    }
}

/// How a provider is asked: by an address in the path, or as a site that is
/// browsed.
#[derive(Clone, Copy, PartialEq, Eq, Structural, Debug)]
pub enum ProviderKind {
    Explicit,
    Web,
}

/// Where an answer leads.
pub enum Route {
    /// To the client.
    Answer,
    /// To another URL, which the proxy asks in its turn, at the given depth of
    /// redirects and through the provider of the given kind that claims it.
    Follow { url: String, depth: u8, provider: Option<ProviderKind> },
    /// The new location has no room among the headers. A location that is the
    /// only one always makes room for the new one.
    HeaderOverflow,
}

/// The kind that a request is treated as: explicit where it has no provider.
pub open spec fn kind_of(provider: Option<ProviderKind>) -> ProviderKind {
    match provider {
        Some(kind) => kind,
        None => ProviderKind::Explicit,
    }
}

/// Whether a route follows a redirect to a URL.
pub open spec fn follows(
    route: Route,
    url: Seq<char>,
    depth: int,
    provider: Option<ProviderKind>,
) -> bool {
    match route {
        Route::Follow { url: u, depth: d, provider: p } => u@ == url && d == depth && p
            == provider,
        _ => false,
    }
}

/// The location that an answer redirects to.
pub fn redirect_location(headers: &HeaderMap) -> (r: Option<String>)
    ensures
        opt_text(r) == first_text(header_contents(*headers), "location"@),
{
    proof {
        lemma_names();
    }
    match read_text(headers, "location") {
        Some(location) => Some(location.to_owned()),
        None => None,
    }
}

/// Whether a name has a single value.
fn has_one_value(headers: &HeaderMap, name: &str) -> (r: bool)
    requires
        header_contents(*headers).contains_key(name@),
    ensures
        header_contents(*headers)[name@].len() > 0,
        r == (header_contents(*headers)[name@].len() == 1),
{
    let all: Vec<(HeaderName, HeaderValue)> = all_lines(headers);
    let ghost views = line_views(all@);
    let mut count: usize = 0;
    let mut i: usize = 0;
    assert(views.take(0) =~= Seq::empty());
    while i < all.len()
        invariant
            count <= i <= all.len(),
            views == line_views(all@),
            count == values_of(views.take(i as int), name@).len(),
        decreases all.len() - i,
    {
        proof {
            assert(views[i as int] == line_view(all@[i as int]));
            assert(views.take(i + 1) =~= views.take(i as int).push(views[i as int]));
            lemma_values_push(views.take(i as int), views[i as int], name@);
        }
        if same(all[i].0.as_str(), name) {
            count += 1;
        }
        i += 1;
    }
    assert(views.take(i as int) =~= views);
    count == 1
}

/// Decides on the redirect of an answer, if it is one. An explicit request
/// follows a location that begins with `http`. A browsing request keeps a
/// location that some provider claims within the proxy, and follows any other.
pub fn route_redirect(
    headers: &mut HeaderMap,
    provider: Option<ProviderKind>,
    depth: u8,
    explicit_claims: bool,
    web_claims: bool,
) -> (r: Route)
    requires
        depth < MAX_REDIRECTS,
    ensures
        match first_text(header_contents(*old(headers)), "location"@) {
            None => r is Answer && header_contents(*final(headers)) == header_contents(
                *old(headers),
            ),
            Some(location) => if kind_of(provider) is Explicit {
                &&& header_contents(*final(headers)) == header_contents(*old(headers))
                &&& if "http"@.is_prefix_of(location) {
                    follows(
                        r,
                        location,
                        depth + 1,
                        if explicit_claims {
                            Some(ProviderKind::Explicit)
                        } else {
                            None
                        },
                    )
                } else {
                    r is Answer
                }
            } else if explicit_claims || web_claims {
                ||| r is Answer && header_contents(*final(headers)) == header_contents(
                    *old(headers),
                ).insert("location"@, seq![vstd::utf8::encode_utf8("/"@ + location)])
                ||| r is HeaderOverflow && header_contents(*final(headers)) == header_contents(
                    *old(headers),
                ) && header_contents(*old(headers)).dom().len() > ROOMY && header_contents(
                    *old(headers),
                )["location"@].len() > 1
            } else {
                follows(r, location, depth + 1, None) && header_contents(*final(headers))
                    == header_contents(*old(headers))
            },
        },
{
    proof {
        lemma_names();
    }
    let location: String = match redirect_location(headers) {
        Some(location) => location,
        None => {
            return Route::Answer;
        },
    };
    let kind: ProviderKind = match provider {
        Some(kind) => kind,
        None => ProviderKind::Explicit,
    };
    match kind {
        ProviderKind::Explicit => {
            if starts_with(location.as_str(), "http") {
                let next: Option<ProviderKind> = if explicit_claims {
                    Some(ProviderKind::Explicit)
                } else {
                    None
                };
                Route::Follow { url: location, depth: depth + 1, provider: next }
            } else {
                Route::Answer
            }
        },
        ProviderKind::Web => {
            if explicit_claims || web_claims {
                let mut inside: String = String::new();
                inside.append("/");
                inside.append(location.as_str());
                proof {
                    assert(inside@ =~= "/"@ + location@);
                    lemma_text_of(header_contents(*headers)["location"@][0]);
                    reveal_strlit("/");
                    assert forall|k: int| 0 <= k < inside@.len() implies (' '
                        <= #[trigger] inside@[k] && inside@[k] < '\u{7f}') || inside@[k]
                        == '\t' by {
                        if k > 0 {
                            assert(inside@[k] == location@[k - 1]);
                        }
                    }
                    lemma_visible_text(inside@);
                }
                match HeaderValue::from_str(inside.as_str()) {
                    Ok(value) => if has_one_value(headers, "location") {
                        proof {
                            let values = header_contents(*headers)["location"@];
                            let bytes = value_bytes(value);
                            assert(values.update(0, bytes) =~= seq![bytes]);
                        }
                        replace_first(headers, "location", value);
                        Route::Answer
                    } else if try_insert(
                        headers,
                        HeaderName::from_static("location"),
                        value,
                    ) {
                        Route::Answer
                    } else {
                        Route::HeaderOverflow
                    },
                    Err(_) => Route::Answer,
                }
            } else {
                Route::Follow { url: location, depth: depth + 1, provider: None }
            }
        },
    }
}

/// Whether an answer is a page of HTML.
pub open spec fn is_html(contents: Map<Seq<char>, Seq<Seq<u8>>>) -> bool {
    match first_text(contents, "content-type"@) {
        Some(kind) => occurs(kind, "text/html"@),
        None => false,
    }
}

/// Whether the body of an answer is read as a whole and offered to the
/// provider to rewrite: a page of HTML, where there is a provider.
pub fn rewrites_body(headers: &HeaderMap, has_provider: bool) -> (r: bool)
    ensures
        r == (has_provider && is_html(header_contents(*headers))),
{
    proof {
        lemma_names();
    }
    let html: bool = match read_text(headers, "content-type") {
        Some(kind) => contains(kind, "text/html"),
        None => false,
    };
    html && has_provider
}

/// Adds the length of a rewritten body to the headers of an answer.
pub fn announce_length(headers: &mut HeaderMap, len: usize) -> (r: Result<(), HeaderOverflow>)
    ensures
        header_contents(*final(headers)) == if r is Ok {
            appended(
                header_contents(*old(headers)),
                "content-length"@,
                vstd::utf8::encode_utf8(decimal(len as nat)),
            )
        } else {
            header_contents(*old(headers))
        },
        header_contents(*old(headers)).dom().len() <= ROOMY ==> r is Ok,
{
    proof {
        lemma_names();
    }
    if try_append(headers, HeaderName::from_static("content-length"), usize_value(len)) {
        Ok(())
    } else {
        Err(HeaderOverflow)
    }
}

} // verus!
