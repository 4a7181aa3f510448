//! The rules of the image registry proxy: which paths it takes, where they
//! lead, and what becomes of the answers.
use crate::config::{lookup, Config, MappingView, RegistryMapping};
use crate::headers::{
    first_text, header_contents, lemma_names, lemma_text_of, lemma_visible_text,
    read_text, replace_first, visible_text,
};
use crate::text::{
    after, before, chars_of, head, join, joined, occurrence, pieces, replace, replaced, same,
    slices, split, split_once, starts_with, texts,
};
use axum::http::{HeaderMap, HeaderValue};
use vstd::prelude::*;

verus! {

/// The proxy of image registries.
pub struct DockerProvider;

/// Whether the path is one of the registry API.
pub open spec fn is_api_path(path: Seq<char>) -> bool {
    "v2/"@.is_prefix_of(path)
}

/// Whether the path is one of the token endpoint.
pub open spec fn is_token_path(path: Seq<char>) -> bool {
    "token"@.is_prefix_of(path)
}

/// The path of the registry API without its leading `v2/`.
pub open spec fn api_rest(path: Seq<char>) -> Seq<char> {
    path.skip(3)
}

/// Whether an API path names a registry: it is the registry's domain, or
/// begins with the domain and a slash.
pub open spec fn names_registry(domain: Seq<char>, rest: Seq<char>) -> bool {
    rest == domain || domain.push('/').is_prefix_of(rest)
}

/// The first enabled registry that an API path names.
pub open spec fn registry_of_path(
    registries: Seq<(Seq<char>, MappingView)>,
    rest: Seq<char>,
) -> Option<(Seq<char>, MappingView)>
    decreases registries.len(),
{
    if registries.len() == 0 {
        None
    } else if registries[0].1.enabled && names_registry(registries[0].0, rest) {
        Some(registries[0])
    } else {
        registry_of_path(registries.drop_first(), rest)
    }
}

/// The first enabled registry whose upstream host a service begins with.
pub open spec fn registry_of_service(
    registries: Seq<(Seq<char>, MappingView)>,
    service: Seq<char>,
) -> Option<(Seq<char>, MappingView)>
    decreases registries.len(),
{
    if registries.len() == 0 {
        None
    } else if registries[0].1.enabled && registries[0].1.upstream.is_prefix_of(service) {
        Some(registries[0])
    } else {
        registry_of_service(registries.drop_first(), service)
    }
}

/// The value of the first `key=value` pair with the given key.
pub open spec fn pair_value(pairs: Seq<Seq<char>>, key: Seq<char>) -> Option<Seq<char>>
    decreases pairs.len(),
{
    if pairs.len() == 0 {
        None
    } else if pairs[0].contains('=') && before(pairs[0], '=') == key {
        Some(after(pairs[0], '='))
    } else {
        pair_value(pairs.drop_first(), key)
    }
}

/// The value of a parameter of a query.
pub open spec fn query_param(query: Seq<char>, key: Seq<char>) -> Option<Seq<char>> {
    pair_value(pieces(query, '&'), key)
}

/// The query of a path: what stands behind its first question mark.
pub open spec fn query_of(path: Seq<char>) -> Seq<char> {
    if path.contains('?') {
        after(path, '?')
    } else {
        Seq::empty()
    }
}

/// The registry that a token request is for, by its `service` parameter.
pub open spec fn registry_of_token(
    registries: Seq<(Seq<char>, MappingView)>,
    path: Seq<char>,
) -> Option<(Seq<char>, MappingView)> {
    match query_param(query_of(path), "service"@) {
        Some(service) => registry_of_service(registries, service),
        None => None,
    }
}

/// The host that a path leads to.
pub open spec fn host_of(
    registries: Seq<(Seq<char>, MappingView)>,
    path: Seq<char>,
) -> Option<Seq<char>> {
    if is_api_path(path) {
        match registry_of_path(registries, api_rest(path)) {
            Some(entry) => Some(entry.1.upstream),
            None => match lookup(registries, "docker.io"@) {
                Some(mapping) => Some(mapping.upstream),
                None => None,
            },
        }
    } else if is_token_path(path) {
        match registry_of_token(registries, path) {
            Some(entry) => Some(before(entry.1.auth_host, '/')),
            None => None,
        }
    } else {
        None
    }
}

/// What is left of an API path behind the domain of its registry.
pub open spec fn behind_domain(domain: Seq<char>, rest: Seq<char>) -> Seq<char> {
    if rest.len() <= domain.len() {
        Seq::empty()
    } else {
        rest.skip(domain.len() as int + 1)
    }
}

/// The URL of the registry API of a host.
pub open spec fn api_url(host: Seq<char>, rest: Seq<char>) -> Seq<char> {
    "https://"@ + host + "/v2/"@ + rest
}

/// A query parameter without the registry's domain in front of a repository.
pub open spec fn stripped_param(param: Seq<char>, domain: Seq<char>) -> Seq<char> {
    let prefix = "repository:"@ + domain;
    let value = after(param, '=');
    let rest = value.skip(prefix.len() as int);
    if param.contains('=') && before(param, '=') == "scope"@ && prefix.is_prefix_of(value)
        && rest.len() > 0 && (rest[0] == '/' || rest[0] == ':') {
        "scope=repository:"@ + rest.skip(1)
    } else {
        param
    }
}

/// A query without the registry's domain in front of the repositories of its
/// scopes.
pub open spec fn stripped_query(query: Seq<char>, domain: Seq<char>) -> Seq<char> {
    joined(
        pieces(query, '&').map_values(|param: Seq<char>| stripped_param(param, domain)),
        "&"@,
    )
}

/// The URL that a token request leads to.
pub open spec fn token_url(
    registries: Seq<(Seq<char>, MappingView)>,
    path: Seq<char>,
) -> Seq<char> {
    let query = query_of(path);
    let base = "https://"@ + match registry_of_token(registries, path) {
        Some(entry) => entry.1.auth_host,
        None => "auth.docker.io/token"@,
    };
    if query.len() == 0 {
        base
    } else {
        base + "?"@ + match registry_of_token(registries, path) {
            Some(entry) => stripped_query(query, entry.0),
            None => query,
        }
    }
}

/// The URL that a path leads to; a path that is not the proxy's leads nowhere
/// else.
pub open spec fn url_of(
    registries: Seq<(Seq<char>, MappingView)>,
    path: Seq<char>,
) -> Seq<char> {
    if is_api_path(path) {
        match registry_of_path(registries, api_rest(path)) {
            Some(entry) => api_url(entry.1.upstream, behind_domain(entry.0, api_rest(path))),
            None => match lookup(registries, "docker.io"@) {
                Some(mapping) => api_url(mapping.upstream, api_rest(path)),
                None => api_url("registry-1.docker.io"@, api_rest(path)),
            },
        }
    } else if is_token_path(path) {
        token_url(registries, path)
    } else {
        path
    }
}

/// A text without its leading slashes.
pub open spec fn without_slashes(s: Seq<char>) -> Seq<char>
    decreases s.len(),
{
    if s.len() > 0 && s[0] == '/' {
        without_slashes(s.drop_first())
    } else {
        s
    }
}

/// The first two segments of an API path, where it has two.
pub open spec fn keywords_of(path: Seq<char>) -> Option<Seq<Seq<char>>> {
    let segments = pieces(without_slashes(api_rest(path)), '/');
    if is_api_path(path) && segments.len() >= 2 {
        Some(segments.take(2))
    } else {
        None
    }
}

/// The URL of a registry's token endpoint.
pub open spec fn auth_url(mapping: MappingView) -> Seq<char> {
    "https://"@ + mapping.auth_host
}

/// Whether clients are to get the tokens of a registry through the proxy: the
/// registry is enabled, and its tokens come from another host or need the
/// proxy's account.
pub open spec fn takes_over_tokens(mapping: MappingView) -> bool {
    mapping.enabled && (before(mapping.auth_host, '/') != mapping.upstream
        || mapping.username.len() > 0)
}

/// A challenge in which the token endpoint of a registry is replaced by the
/// proxy's own, where the proxy takes it over.
pub open spec fn redirected_by(mapping: MappingView, challenge: Seq<char>) -> Seq<char> {
    if takes_over_tokens(mapping) {
        replaced(challenge, auth_url(mapping), "/token"@)
    } else {
        challenge
    }
}

/// A challenge in which the token endpoints that the proxy takes over are
/// replaced by its own, registry after registry.
pub open spec fn redirected_challenge(
    registries: Seq<(Seq<char>, MappingView)>,
    challenge: Seq<char>,
) -> Seq<char>
    decreases registries.len(),
{
    if registries.len() == 0 {
        challenge
    } else {
        redirected_challenge(
            registries.drop_first(),
            redirected_by(registries[0].1, challenge),
        )
    }
}

/// The headers of an answer whose first challenge leads clients to the proxy's
/// own token endpoint.
pub open spec fn with_redirected_challenge(
    contents: Map<Seq<char>, Seq<Seq<u8>>>,
    registries: Seq<(Seq<char>, MappingView)>,
) -> Map<Seq<char>, Seq<Seq<u8>>> {
    match first_text(contents, "www-authenticate"@) {
        Some(challenge) => contents.insert(
            "www-authenticate"@,
            contents["www-authenticate"@].update(
                0,
                vstd::utf8::encode_utf8(redirected_challenge(registries, challenge)),
            ),
        ),
        None => contents,
    }
}

/// One step of `registry_of_path`, from the entry at an index to the next.
proof fn lemma_path_skip(registries: Seq<(Seq<char>, MappingView)>, rest: Seq<char>, i: int)
    requires
        0 <= i < registries.len(),
    ensures
        registry_of_path(registries.skip(i), rest) == if registries[i].1.enabled && names_registry(
            registries[i].0,
            rest,
        ) {
            Some(registries[i])
        } else {
            registry_of_path(registries.skip(i + 1), rest)
        },
{
    assert(registries.skip(i).drop_first() =~= registries.skip(i + 1));
}

/// One step of `registry_of_service`, from the entry at an index to the next.
proof fn lemma_service_skip(registries: Seq<(Seq<char>, MappingView)>, service: Seq<char>, i: int)
    requires
        0 <= i < registries.len(),
    ensures
        registry_of_service(registries.skip(i), service) == if registries[i].1.enabled
            && registries[i].1.upstream.is_prefix_of(service) {
            Some(registries[i])
        } else {
            registry_of_service(registries.skip(i + 1), service)
        },
{
    assert(registries.skip(i).drop_first() =~= registries.skip(i + 1));
}

/// Whether an API path names a registry.
fn is_registry_path(domain: &str, rest: &str) -> (r: bool)
    ensures
        r == names_registry(domain@, rest@),
{
    let mut prefix: String = String::new();
    prefix.append(domain);
    prefix.append("/");
    proof {
        reveal_strlit("/");
        assert(prefix@ =~= domain@.push('/'));
    }
    same(rest, domain) || starts_with(rest, prefix.as_str())
}

/// The index of the first enabled registry that an API path names.
fn find_by_path(config: &Config, rest: &str) -> (r: Option<usize>)
    ensures
        match r {
            Some(i) => i < config.docker.registries@.len() && registry_of_path(
                config.docker.registries@,
                rest@,
            ) == Some(config.docker.registries@[i as int]),
            None => registry_of_path(config.docker.registries@, rest@) is None,
        },
{
    let ghost all = config.docker.registries@;
    let n: usize = config.docker.registries.len();
    let mut i: usize = 0;
    assert(all.skip(0) =~= all);
    while i < n
        invariant
            i <= n,
            n == all.len(),
            all == config.docker.registries@,
            registry_of_path(all, rest@) == registry_of_path(all.skip(i as int), rest@),
        decreases n - i,
    {
        proof {
            lemma_path_skip(all, rest@, i as int);
        }
        if config.docker.registries.mapping(i).enabled && is_registry_path(
            config.docker.registries.domain(i),
            rest,
        ) {
            return Some(i);
        }
        i += 1;
    }
    None
}

/// The index of the first enabled registry whose upstream a service begins with.
fn find_by_service(config: &Config, service: &str) -> (r: Option<usize>)
    ensures
        match r {
            Some(i) => i < config.docker.registries@.len() && registry_of_service(
                config.docker.registries@,
                service@,
            ) == Some(config.docker.registries@[i as int]),
            None => registry_of_service(config.docker.registries@, service@) is None,
        },
{
    let ghost all = config.docker.registries@;
    let n: usize = config.docker.registries.len();
    let mut i: usize = 0;
    assert(all.skip(0) =~= all);
    while i < n
        invariant
            i <= n,
            n == all.len(),
            all == config.docker.registries@,
            registry_of_service(all, service@) == registry_of_service(
                all.skip(i as int),
                service@,
            ),
        decreases n - i,
    {
        proof {
            lemma_service_skip(all, service@, i as int);
        }
        if config.docker.registries.mapping(i).enabled && starts_with(
            service,
            config.docker.registries.mapping(i).upstream.as_str(),
        ) {
            return Some(i);
        }
        i += 1;
    }
    None
}

/// The query of a path.
fn query_part<'a>(path: &'a str) -> (r: &'a str)
    ensures
        r@ == query_of(path@),
{
    match split_once(path, '?') {
        Some(parts) => parts.1,
        None => {
            let r = path.substring_char(0, 0);
            assert(r@ =~= Seq::empty());
            r
        },
    }
}

impl DockerProvider {
    /// The provider; it has no settings of its own.
    pub fn new() -> (r: Self)
        ensures
            r == DockerProvider,
    {
        DockerProvider
    }

    /// The value of the first parameter of a query with the given name.
    pub fn get_query_param<'a>(&self, query: &'a str, key: &str) -> (r: Option<&'a str>)
        ensures
            match r {
                Some(value) => query_param(query@, key@) == Some(value@),
                None => query_param(query@, key@) is None,
            },
    {
        let pairs: Vec<&'a str> = split(query, '&');
        let ghost all = pieces(query@, '&');
        let mut i: usize = 0;
        assert(all.skip(0) =~= all);
        while i < pairs.len()
            invariant
                i <= pairs.len(),
                all == slices(pairs@),
                all == pieces(query@, '&'),
                pair_value(all, key@) == pair_value(all.skip(i as int), key@),
            decreases pairs.len() - i,
        {
            assert(all[i as int] == pairs@[i as int]@);
            assert(all.skip(i as int).drop_first() =~= all.skip(i + 1));
            match split_once(pairs[i], '=') {
                Some(parts) => if same(parts.0, key) {
                    return Some(parts.1);
                },
                None => {},
            }
            i += 1;
        }
        None
    }

    /// Whether the provider takes a path.
    pub fn matches(&self, path: &str) -> (r: bool)
        ensures
            r == (is_api_path(path@) || is_token_path(path@)),
    {
        starts_with(path, "v2/") || starts_with(path, "token")
    }

    /// The index of the registry that a token request is for.
    fn find_by_token(&self, config: &Config, path: &str) -> (r: Option<usize>)
        ensures
            match r {
                Some(i) => i < config.docker.registries@.len() && registry_of_token(
                    config.docker.registries@,
                    path@,
                ) == Some(config.docker.registries@[i as int]),
                None => registry_of_token(config.docker.registries@, path@) is None,
            },
    {
        match self.get_query_param(query_part(path), "service") {
            Some(service) => find_by_service(config, service),
            None => None,
        }
    }

    /// The host that a path leads to.
    pub fn upstream_host(&self, path: &str, config: &Config) -> (r: Option<String>)
        ensures
            match r {
                Some(host) => host_of(config.docker.registries@, path@) == Some(host@),
                None => host_of(config.docker.registries@, path@) is None,
            },
    {
        proof {
            reveal_strlit("v2/");
        }
        if starts_with(path, "v2/") {
            let rest = path.substring_char(3, path.unicode_len());
            assert(rest@ =~= api_rest(path@));
            match find_by_path(config, rest) {
                Some(i) => Some(config.docker.registries.mapping(i).upstream.clone()),
                None => match config.docker.registries.get("docker.io") {
                    Some(mapping) => Some(mapping.upstream.clone()),
                    None => None,
                },
            }
        } else if starts_with(path, "token") {
            match self.find_by_token(config, path) {
                Some(i) => Some(
                    head(config.docker.registries.mapping(i).auth_host.as_str(), '/').to_owned(),
                ),
                None => None,
            }
        } else {
            None
        }
    }

    /// A query without the registry's domain in front of the repositories of
    /// its scopes.
    pub fn strip_scope_prefix(query: &str, domain: &str) -> (r: String)
        ensures
            r@ == stripped_query(query@, domain@),
    {
        let params: Vec<&str> = split(query, '&');
        let ghost all = pieces(query@, '&');
        let mut fixed: Vec<String> = Vec::new();
        let mut i: usize = 0;
        while i < params.len()
            invariant
                i <= params.len(),
                all == slices(params@),
                all == pieces(query@, '&'),
                fixed@.len() == i,
                forall|k: int|
                    0 <= k < i ==> (#[trigger] fixed@[k])@ == stripped_param(all[k], domain@),
            decreases params.len() - i,
        {
            assert(all[i as int] == params@[i as int]@);
            fixed.push(strip_param(params[i], domain));
            i += 1;
        }
        assert(texts(fixed@) =~= all.map_values(
            |param: Seq<char>| stripped_param(param, domain@),
        ));
        join(fixed.as_slice(), "&")
    }

    /// The URL that a path leads to.
    pub fn transform(&self, path: String, config: &Config) -> (r: String)
        ensures
            r@ == url_of(config.docker.registries@, path@),
    {
        proof {
            reveal_strlit("v2/");
        }
        if starts_with(path.as_str(), "v2/") {
            let rest = path.as_str().substring_char(3, path.as_str().unicode_len());
            assert(rest@ =~= api_rest(path@));
            match find_by_path(config, rest) {
                Some(i) => {
                    let n: usize = rest.unicode_len();
                    let domain = config.docker.registries.domain(i);
                    let d: usize = domain.unicode_len();
                    let behind: &str = if n <= d {
                        rest.substring_char(0, 0)
                    } else {
                        rest.substring_char(d + 1, n)
                    };
                    assert(behind@ =~= behind_domain(domain@, rest@));
                    make_api_url(config.docker.registries.mapping(i).upstream.as_str(), behind)
                },
                None => match config.docker.registries.get("docker.io") {
                    Some(mapping) => make_api_url(mapping.upstream.as_str(), rest),
                    None => make_api_url("registry-1.docker.io", rest),
                },
            }
        } else if starts_with(path.as_str(), "token") {
            let query = query_part(path.as_str());
            let found: Option<usize> = self.find_by_token(config, path.as_str());
            let mut url: String = String::new();
            url.append("https://");
            match found {
                Some(i) => url.append(config.docker.registries.mapping(i).auth_host.as_str()),
                None => url.append("auth.docker.io/token"),
            }
            assert(Seq::<char>::empty() + "https://"@ =~= "https://"@);
            if !query.is_empty() {
                url.append("?");
                match found {
                    Some(i) => {
                        let fixed: String = DockerProvider::strip_scope_prefix(
                            query,
                            config.docker.registries.domain(i),
                        );
                        url.append(fixed.as_str());
                    },
                    None => url.append(query),
                }
            }
            url
        } else {
            path
        }
    }

    /// The first two segments of an API path, where it has two.
    pub fn extract_keywords(&self, path: &str) -> (r: Option<Vec<String>>)
        ensures
            match r {
                Some(words) => keywords_of(path@) == Some(texts(words@)),
                None => keywords_of(path@) is None,
            },
    {
        proof {
            reveal_strlit("v2/");
        }
        if starts_with(path, "v2/") {
            let rest = path.substring_char(3, path.unicode_len());
            assert(rest@ =~= api_rest(path@));
            let segments: Vec<&str> = split(trim_slashes(rest), '/');
            let ghost all = slices(segments@);
            if segments.len() >= 2 {
                let mut words: Vec<String> = Vec::new();
                words.push(segments[0].to_owned());
                words.push(segments[1].to_owned());
                proof {
                    assert(all[0] == segments@[0]@);
                    assert(all[1] == segments@[1]@);
                    assert(texts(words@) =~= all.take(2));
                }
                return Some(words);
            }
        }
        None
    }

    /// Leads clients that an answer challenges to the proxy's own token
    /// endpoint, for the registries whose tokens the proxy takes over.
    pub fn handle_response(&self, headers: &mut HeaderMap, config: &Config)
        ensures
            header_contents(*final(headers)) == with_redirected_challenge(
                header_contents(*old(headers)),
                config.docker.registries@,
            ),
    {
        proof {
            lemma_names();
        }
        let challenge: String = match read_text(headers, "www-authenticate") {
            Some(text) => text.to_owned(),
            None => {
                return;
            },
        };
        let ghost first = header_contents(*headers)["www-authenticate"@][0];
        proof {
            lemma_text_of(first);
            lemma_challenge_visible(config.docker.registries@, challenge@);
            lemma_visible_text(redirected_challenge(config.docker.registries@, challenge@));
        }
        let redirected: String = redirect_challenge(config, challenge);
        match HeaderValue::from_str(redirected.as_str()) {
            Ok(value) => replace_first(headers, "www-authenticate", value),
            Err(_) => {},
        }
    }
}

/// A text without its leading slashes.
fn trim_slashes<'a>(s: &'a str) -> (r: &'a str)
    ensures
        r@ == without_slashes(s@),
{
    let x: Vec<char> = chars_of(s);
    let mut i: usize = 0;
    assert(s@.skip(0) =~= s@);
    while i < x.len() && x[i] == '/'
        invariant
            i <= x.len(),
            x@ == s@,
            without_slashes(s@.skip(i as int)) == without_slashes(s@),
        decreases x.len() - i,
    {
        assert(s@.skip(i as int).drop_first() =~= s@.skip(i + 1));
        i += 1;
    }
    let r = s.substring_char(i, x.len());
    assert(r@ =~= s@.skip(i as int));
    r
}

/// The challenge after each registry in turn.
fn redirect_challenge(config: &Config, challenge: String) -> (r: String)
    ensures
        r@ == redirected_challenge(config.docker.registries@, challenge@),
{
    let ghost all = config.docker.registries@;
    let n: usize = config.docker.registries.len();
    let mut text: String = challenge;
    let mut i: usize = 0;
    assert(all.skip(0) =~= all);
    while i < n
        invariant
            i <= n,
            n == all.len(),
            all == config.docker.registries@,
            redirected_challenge(all.skip(i as int), text@) == redirected_challenge(
                all,
                challenge@,
            ),
        decreases n - i,
    {
        let mapping: &RegistryMapping = config.docker.registries.mapping(i);
        assert(all.skip(i as int).drop_first() =~= all.skip(i + 1));
        let auth_domain: &str = head(mapping.auth_host.as_str(), '/');
        if mapping.enabled && (!same(auth_domain, mapping.upstream.as_str())
            || !mapping.username.as_str().is_empty()) {
            let mut url: String = String::new();
            url.append("https://");
            url.append(mapping.auth_host.as_str());
            proof {
                reveal_strlit("https://");
                assert(url@ =~= auth_url(mapping@));
            }
            text = replace(text.as_str(), url.as_str(), "/token");
        }
        i += 1;
    }
    text
}

/// Replacing a part of a printable text by a printable text leaves it printable.
proof fn lemma_replaced_visible(s: Seq<char>, pat: Seq<char>, to: Seq<char>)
    requires
        visible_text(s),
        visible_text(to),
    ensures
        visible_text(replaced(s, pat, to)),
    decreases s.len(),
{
    match occurrence(s, pat, 0) {
        Some(i) => if pat.len() > 0 && 0 <= i && i + pat.len() <= s.len() {
            let tail = s.skip(i + pat.len());
            assert(visible_text(tail)) by {
                assert forall|k: int| 0 <= k < tail.len() implies (' ' <= #[trigger] tail[k]
                    && tail[k] < '\u{7f}') || tail[k] == '\t' by {
                    assert(tail[k] == s[k + i + pat.len()]);
                }
            }
            lemma_replaced_visible(tail, pat, to);
            let r = replaced(s, pat, to);
            assert forall|k: int| 0 <= k < r.len() implies (' ' <= #[trigger] r[k] && r[k]
                < '\u{7f}') || r[k] == '\t' by {
                if k < i {
                    assert(r[k] == s[k]);
                } else if k < i + to.len() {
                    assert(r[k] == to[k - i]);
                } else {
                    assert(r[k] == replaced(tail, pat, to)[k - i - to.len()]);
                }
            }
        },
        None => {},
    }
}

/// A printable challenge stays printable.
pub proof fn lemma_challenge_visible(
    registries: Seq<(Seq<char>, MappingView)>,
    challenge: Seq<char>,
)
    requires
        visible_text(challenge),
    ensures
        visible_text(redirected_challenge(registries, challenge)),
    decreases registries.len(),
{
    if registries.len() > 0 {
        assert(visible_text("/token"@)) by {
            reveal_strlit("/token");
        }
        lemma_replaced_visible(challenge, auth_url(registries[0].1), "/token"@);
        lemma_challenge_visible(
            registries.drop_first(),
            redirected_by(registries[0].1, challenge),
        );
    }
}

/// A query parameter without the registry's domain in front of a repository.
fn strip_param(param: &str, domain: &str) -> (r: String)
    ensures
        r@ == stripped_param(param@, domain@),
{
    match split_once(param, '=') {
        Some(parts) => {
            let mut prefix: String = String::new();
            prefix.append("repository:");
            prefix.append(domain);
            assert(prefix@ =~= "repository:"@ + domain@);
            if same(parts.0, "scope") && starts_with(parts.1, prefix.as_str()) {
                let at: usize = prefix.as_str().unicode_len();
                let n: usize = parts.1.unicode_len();
                if at < n {
                    let c: char = parts.1.get_char(at);
                    if c == '/' || c == ':' {
                        let mut r: String = String::new();
                        r.append("scope=repository:");
                        r.append(parts.1.substring_char(at + 1, n));
                        proof {
                            let rest = parts.1@.skip(at as int);
                            assert(rest[0] == c);
                            assert(parts.1@.subrange(at + 1, n as int) =~= rest.skip(1));
                            assert(r@ =~= "scope=repository:"@ + rest.skip(1));
                        }
                        return r;
                    }
                }
            }
            param.to_owned()
        },
        None => param.to_owned(),
    }
}

/// The URL of the registry API of a host.
fn make_api_url(host: &str, rest: &str) -> (r: String)
    ensures
        r@ == api_url(host@, rest@),
{
    let mut r: String = String::new();
    r.append("https://");
    r.append(host);
    r.append("/v2/");
    r.append(rest);
    assert(r@ =~= api_url(host@, rest@));
    r
}

} // verus!
