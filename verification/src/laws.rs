//! What holds of the rules together.
use crate::access::covers;
use crate::config::{distinct, lemma_slot, lookup, slot, MappingView};
use crate::docker::{
    api_rest, api_url, auth_url, behind_domain, host_of, is_api_path, is_token_path,
    keywords_of, lemma_challenge_visible, names_registry, pair_value, query_of, query_param,
    redirected_by, redirected_challenge, registry_of_path, registry_of_service,
    registry_of_token, stripped_param, stripped_query, takes_over_tokens, token_url, url_of,
    with_redirected_challenge, without_slashes,
};
use crate::engine::{
    account_at, account_for, cleaned, exceeds, forwarded, has_account_at, is_at, is_reply,
    is_site_policy, lemma_realm_visible, limit_overflows, url_authority, url_host,
    with_absolute_realm, without_port, MAX_REDIRECTS,
};
use crate::exchange::{begins_at, leads_deeper, Direction, Opening};
use crate::headers::{first_text, lemma_text_of, lemma_visible_text};
use crate::pattern::{has_relative_realm, realm_at, wildcard_accepts, with_realm_host};
use crate::text::{
    after, before, joined, lemma_occurrence, lemma_occurrence_at, lemma_position,
    lemma_position_at, occurrence, occurs, occurs_at, pieces, position, replaced,
};
use vstd::prelude::*;

verus! {

/// The pieces of a text, joined by their separator, are the text.
pub proof fn law_split_then_join(s: Seq<char>, c: char)
    ensures
        joined(pieces(s, c), seq![c]) == s,
    decreases s.len(),
{
    lemma_position(s, c);
    if position(s, c) < s.len() {
        law_split_then_join(after(s, c), c);
        let rest = pieces(after(s, c), c);
        let all = pieces(s, c);
        lemma_pieces_nonempty(after(s, c), c);
        assert(all.drop_first() =~= rest);
        assert(joined(all, seq![c]) =~= before(s, c) + seq![c] + joined(rest, seq![c]));
        assert(s =~= before(s, c) + seq![c] + after(s, c));
    }
}

/// A text has at least one piece.
proof fn lemma_pieces_nonempty(s: Seq<char>, c: char)
    ensures
        pieces(s, c).len() > 0,
{
}

/// No piece of a text holds the separator.
pub proof fn law_pieces_are_separate(s: Seq<char>, c: char, i: int)
    requires
        0 <= i < pieces(s, c).len(),
    ensures
        !pieces(s, c)[i].contains(c),
    decreases s.len(),
{
    lemma_position(s, c);
    if position(s, c) < s.len() {
        if i > 0 {
            law_pieces_are_separate(after(s, c), c, i - 1);
        } else {
            assert forall|k: int| 0 <= k < before(s, c).len() implies before(s, c)[k] != c by {
                assert(before(s, c)[k] == s[k]);
            }
        }
    }
}

/// Parts without the separator are the pieces of what joining them gives.
pub proof fn law_join_then_split(parts: Seq<Seq<char>>, c: char)
    requires
        parts.len() > 0,
        forall|i: int| 0 <= i < parts.len() ==> !(#[trigger] parts[i]).contains(c),
    ensures
        pieces(joined(parts, seq![c]), c) == parts,
    decreases parts.len(),
{
    let s = joined(parts, seq![c]);
    assert(!parts[0].contains(c));
    assert forall|j: int| 0 <= j < parts[0].len() implies parts[0][j] != c by {
        assert(parts[0].contains(parts[0][j]));
    }
    if parts.len() == 1 {
        lemma_position_at(s, c, s.len() as int);
        assert(pieces(s, c) =~= parts);
    } else {
        let rest = parts.drop_first();
        assert forall|i: int| 0 <= i < rest.len() implies !(#[trigger] rest[i]).contains(c) by {
            assert(rest[i] == parts[i + 1]);
        }
        law_join_then_split(rest, c);
        let k = parts[0].len() as int;
        assert(s[k] == c);
        assert forall|j: int| 0 <= j < k implies s[j] != c by {
            assert(s[j] == parts[0][j]);
        }
        lemma_position_at(s, c, k);
        assert(before(s, c) =~= parts[0]);
        assert(after(s, c) =~= joined(rest, seq![c]));
        assert(pieces(s, c) =~= parts);
    }
}

/// A path that is not the provider's is left as it is and leads to no host.
pub proof fn law_foreign_paths_stay(
    registries: Seq<(Seq<char>, MappingView)>,
    path: Seq<char>,
)
    requires
        !is_api_path(path),
        !is_token_path(path),
    ensures
        url_of(registries, path) == path,
        host_of(registries, path) is None,
{
}

/// Every path that the provider takes leads to an `https` URL.
pub proof fn law_urls_are_https(registries: Seq<(Seq<char>, MappingView)>, path: Seq<char>)
    requires
        is_api_path(path) || is_token_path(path),
    ensures
        "https://"@.is_prefix_of(url_of(registries, path)),
{
    let url = url_of(registries, path);
    let scheme = "https://"@;
    assert(url.subrange(0, scheme.len() as int) =~= scheme);
}

/// The host of a URL that begins with a scheme and a host, with its port.
proof fn lemma_url_authority(host: Seq<char>, rest: Seq<char>)
    requires
        !host.contains('/'),
        rest.len() > 0 ==> rest[0] == '/',
    ensures
        url_authority("https://"@ + host + rest) == Some(host),
{
    let url = "https://"@ + host + rest;
    reveal_strlit("https://");
    assert(url.subrange(0, 8) =~= "https://"@);
    let tail = url.skip(8);
    assert(tail =~= host + rest);
    assert forall|j: int| 0 <= j < host.len() implies tail[j] != '/' by {
        assert(host.contains(host[j]));
    }
    lemma_position_at(tail, '/', host.len() as int);
    assert(before(tail, '/') =~= host);
}

/// An API path leads to a URL at the host that the provider names for it.
pub proof fn law_api_url_is_at_host(
    registries: Seq<(Seq<char>, MappingView)>,
    path: Seq<char>,
    host: Seq<char>,
)
    requires
        is_api_path(path),
        host_of(registries, path) == Some(host),
        !host.contains('/'),
    ensures
        url_authority(url_of(registries, path)) == Some(host),
        url_host(url_of(registries, path)) == Some(without_port(host)),
{
    reveal_strlit("/v2/");
    let rest = match registry_of_path(registries, api_rest(path)) {
        Some(entry) => behind_domain(entry.0, api_rest(path)),
        None => api_rest(path),
    };
    assert(api_url(host, rest) =~= "https://"@ + host + ("/v2/"@ + rest));
    lemma_url_authority(host, "/v2/"@ + rest);
}

/// A token path leads to a URL at the host that the provider names for it,
/// where the token endpoint has a path.
pub proof fn law_token_url_is_at_host(
    registries: Seq<(Seq<char>, MappingView)>,
    path: Seq<char>,
    host: Seq<char>,
)
    requires
        is_token_path(path),
        !is_api_path(path),
        host_of(registries, path) == Some(host),
        (registry_of_token(registries, path)->0).1.auth_host.contains('/'),
    ensures
        url_authority(url_of(registries, path)) == Some(host),
        url_host(url_of(registries, path)) == Some(without_port(host)),
{
    let entry = registry_of_token(registries, path)->0;
    let auth = entry.1.auth_host;
    lemma_position(auth, '/');
    assert(!host.contains('/')) by {
        if host.contains('/') {
            let j = host.index_of('/');
            assert(auth[j] == '/');
        }
    }
    let rest = auth.skip(position(auth, '/'));
    assert(auth =~= host + rest);
    let url = token_url(registries, path);
    if query_of(path).len() == 0 {
        assert(url =~= "https://"@ + host + rest);
        lemma_url_authority(host, rest);
    } else {
        let tail = rest + "?"@ + stripped_query(query_of(path), entry.0);
        assert(url =~= "https://"@ + host + tail);
        lemma_url_authority(host, tail);
    }
}

/// An API request that leads to the upstream host of an enabled registry with an
/// account, by the registry's domain or because it names none, is logged in,
/// unless the client brings an authorization of its own.
pub proof fn law_routed_requests_log_in(
    contents: Map<Seq<char>, Seq<Seq<u8>>>,
    registries: Seq<(Seq<char>, MappingView)>,
    path: Seq<char>,
    i: int,
)
    requires
        is_api_path(path),
        0 <= i < registries.len(),
        host_of(registries, path) == Some(registries[i].1.upstream),
        registries[i].1.enabled,
        registries[i].1.username.len() > 0,
        !registries[i].1.upstream.contains('/'),
        !contents.contains_key("authorization"@),
    ensures
        account_for(contents, url_of(registries, path), registries) is Some,
{
    let host = registries[i].1.upstream;
    law_api_url_is_at_host(registries, path, host);
    lemma_account_at(registries, host);
    assert(has_account_at(registries[i].1, host));
}

/// A token request for a registry with an account, whose token endpoint has a
/// path, is logged in, unless the client brings an authorization of its own.
pub proof fn law_token_requests_log_in(
    contents: Map<Seq<char>, Seq<Seq<u8>>>,
    registries: Seq<(Seq<char>, MappingView)>,
    path: Seq<char>,
    entry: (Seq<char>, MappingView),
)
    requires
        is_token_path(path),
        !is_api_path(path),
        registry_of_token(registries, path) == Some(entry),
        entry.1.username.len() > 0,
        entry.1.auth_host.contains('/'),
        !contents.contains_key("authorization"@),
    ensures
        account_for(contents, url_of(registries, path), registries) is Some,
{
    let host = before(entry.1.auth_host, '/');
    law_token_url_is_at_host(registries, path, host);
    lemma_registry_of_service(registries, query_param(query_of(path), "service"@)->0);
    let i = choose|i: int| 0 <= i < registries.len() && registries[i] == entry;
    lemma_account_at(registries, host);
    assert(has_account_at(registries[i].1, host));
}

/// What `account_at` says of the registries.
proof fn lemma_account_at(registries: Seq<(Seq<char>, MappingView)>, authority: Seq<char>)
    ensures
        match account_at(registries, authority) {
            Some(mapping) => has_account_at(mapping, authority) && exists|i: int|
                0 <= i < registries.len() && (#[trigger] registries[i]).1 == mapping,
            None => forall|i: int|
                0 <= i < registries.len() ==> !has_account_at(
                    (#[trigger] registries[i]).1,
                    authority,
                ),
        },
    decreases registries.len(),
{
    if registries.len() > 0 {
        if has_account_at(registries[0].1, authority) {
            assert(registries[0].1 == account_at(registries, authority)->0);
        } else {
            let rest = registries.drop_first();
            lemma_account_at(rest, authority);
            match account_at(rest, authority) {
                Some(mapping) => {
                    let i = choose|i: int|
                        0 <= i < rest.len() && (#[trigger] rest[i]).1 == mapping;
                    assert(registries[i + 1].1 == mapping);
                },
                None => {
                    assert forall|i: int| 0 <= i < registries.len() implies !has_account_at(
                        (#[trigger] registries[i]).1,
                        authority,
                    ) by {
                        if i > 0 {
                            assert(rest[i - 1] == registries[i]);
                        }
                    }
                },
            }
        }
    }
}

/// What `registry_of_path` says of the registries.
proof fn lemma_registry_of_path(registries: Seq<(Seq<char>, MappingView)>, rest: Seq<char>)
    ensures
        match registry_of_path(registries, rest) {
            Some(entry) => entry.1.enabled && names_registry(entry.0, rest) && exists|i: int|
                0 <= i < registries.len() && #[trigger] registries[i] == entry,
            None => forall|i: int|
                0 <= i < registries.len() ==> !((#[trigger] registries[i]).1.enabled
                    && names_registry(registries[i].0, rest)),
        },
    decreases registries.len(),
{
    if registries.len() > 0 {
        if registries[0].1.enabled && names_registry(registries[0].0, rest) {
            assert(registries[0] == registry_of_path(registries, rest)->0);
        } else {
            let tail = registries.drop_first();
            lemma_registry_of_path(tail, rest);
            match registry_of_path(tail, rest) {
                Some(entry) => {
                    let i = choose|i: int| 0 <= i < tail.len() && #[trigger] tail[i] == entry;
                    assert(registries[i + 1] == entry);
                },
                None => {
                    assert forall|i: int| 0 <= i < registries.len() implies !((
                    #[trigger] registries[i]).1.enabled && names_registry(
                        registries[i].0,
                        rest,
                    )) by {
                        if i > 0 {
                            assert(tail[i - 1] == registries[i]);
                        }
                    }
                },
            }
        }
    }
}

/// A domain without a slash that an API path names is the path up to its first
/// slash.
proof fn lemma_named_domain(domain: Seq<char>, rest: Seq<char>)
    requires
        names_registry(domain, rest),
        !domain.contains('/'),
    ensures
        domain == before(rest, '/'),
{
    assert forall|j: int| 0 <= j < domain.len() implies rest[j] != '/' by {
        assert(domain.contains(domain[j]));
        if rest != domain {
            assert(rest.subrange(0, domain.len() as int + 1)[j] == domain.push('/')[j]);
        }
    }
    if rest != domain {
        assert(rest.subrange(0, domain.len() as int + 1)[domain.len() as int] == '/');
    }
    lemma_position_at(rest, '/', domain.len() as int);
    assert(before(rest, '/') =~= domain) by {
        if rest != domain {
            assert(rest.subrange(0, domain.len() as int + 1) =~= domain.push('/'));
            assert forall|j: int| 0 <= j < domain.len() implies rest[j] == domain[j] by {
                assert(rest.subrange(0, domain.len() as int + 1)[j] == domain.push('/')[j]);
            }
        }
    }
}

/// Whether two lists hold the same entries, in whatever order.
pub open spec fn same_entries(
    a: Seq<(Seq<char>, MappingView)>,
    b: Seq<(Seq<char>, MappingView)>,
) -> bool {
    &&& forall|i: int| 0 <= i < a.len() ==> b.contains(#[trigger] a[i])
    &&& forall|i: int| 0 <= i < b.len() ==> a.contains(#[trigger] b[i])
}

/// Whether no domain holds a slash.
pub open spec fn are_plain_domains(registries: Seq<(Seq<char>, MappingView)>) -> bool {
    forall|i: int| 0 <= i < registries.len() ==> !(#[trigger] registries[i]).0.contains('/')
}

/// The mapping of a domain does not depend on the order of the registries.
pub proof fn law_lookup_ignores_order(
    a: Seq<(Seq<char>, MappingView)>,
    b: Seq<(Seq<char>, MappingView)>,
    domain: Seq<char>,
)
    requires
        distinct(a),
        distinct(b),
        same_entries(a, b),
    ensures
        lookup(a, domain) == lookup(b, domain),
{
    lemma_slot(a, domain);
    lemma_slot(b, domain);
    let i = slot(a, domain);
    let j = slot(b, domain);
    if i < a.len() {
        let k = b.index_of(a[i]);
        assert(b[k] == a[i]);
        if j < b.len() && j != k {
            assert(b[j].0 == b[k].0);
            if j < k {
                assert(b[j].0 != b[k].0);
            } else {
                assert(b[k].0 != b[j].0);
            }
        }
    } else if j < b.len() {
        let k = a.index_of(b[j]);
        assert(a[k] == b[j]);
    }
}

/// Where API paths lead does not depend on the order of the registries, where
/// no domain holds a slash.
pub proof fn law_api_routing_ignores_order(
    a: Seq<(Seq<char>, MappingView)>,
    b: Seq<(Seq<char>, MappingView)>,
    path: Seq<char>,
)
    requires
        is_api_path(path),
        distinct(a),
        distinct(b),
        same_entries(a, b),
        are_plain_domains(a),
    ensures
        host_of(a, path) == host_of(b, path),
        url_of(a, path) == url_of(b, path),
{
    let rest = api_rest(path);
    law_lookup_ignores_order(a, b, "docker.io"@);
    lemma_registry_of_path(a, rest);
    lemma_registry_of_path(b, rest);
    match registry_of_path(a, rest) {
        Some(x) => {
            let i = choose|i: int| 0 <= i < a.len() && #[trigger] a[i] == x;
            let k = b.index_of(a[i]);
            assert(b[k] == x);
            match registry_of_path(b, rest) {
                Some(y) => {
                    let j = choose|j: int| 0 <= j < b.len() && #[trigger] b[j] == y;
                    let m = a.index_of(b[j]);
                    assert(a[m] == y);
                    lemma_named_domain(x.0, rest);
                    lemma_named_domain(y.0, rest);
                    if i < m {
                        assert(a[i].0 != a[m].0);
                    } else if m < i {
                        assert(a[m].0 != a[i].0);
                    }
                    assert(x == y);
                },
                None => {},
            }
        },
        None => match registry_of_path(b, rest) {
            Some(y) => {
                let j = choose|j: int| 0 <= j < b.len() && #[trigger] b[j] == y;
                let m = a.index_of(b[j]);
                assert(a[m] == y);
            },
            None => {},
        },
    }
}

/// What `registry_of_service` says of the registries.
proof fn lemma_registry_of_service(
    registries: Seq<(Seq<char>, MappingView)>,
    service: Seq<char>,
)
    ensures
        match registry_of_service(registries, service) {
            Some(entry) => entry.1.enabled && entry.1.upstream.is_prefix_of(service)
                && exists|i: int| 0 <= i < registries.len() && #[trigger] registries[i] == entry,
            None => forall|i: int|
                0 <= i < registries.len() ==> !((#[trigger] registries[i]).1.enabled
                    && registries[i].1.upstream.is_prefix_of(service)),
        },
    decreases registries.len(),
{
    if registries.len() > 0 {
        if registries[0].1.enabled && registries[0].1.upstream.is_prefix_of(service) {
            assert(registries[0] == registry_of_service(registries, service)->0);
        } else {
            let tail = registries.drop_first();
            lemma_registry_of_service(tail, service);
            match registry_of_service(tail, service) {
                Some(entry) => {
                    let i = choose|i: int| 0 <= i < tail.len() && #[trigger] tail[i] == entry;
                    assert(registries[i + 1] == entry);
                },
                None => {
                    assert forall|i: int| 0 <= i < registries.len() implies !((
                    #[trigger] registries[i]).1.enabled && registries[i].1.upstream.is_prefix_of(
                        service,
                    )) by {
                        if i > 0 {
                            assert(tail[i - 1] == registries[i]);
                        }
                    }
                },
            }
        }
    }
}

/// Whether no upstream host of an enabled registry begins with that of another.
pub open spec fn are_apart(registries: Seq<(Seq<char>, MappingView)>) -> bool {
    forall|i: int, j: int|
        0 <= i < registries.len() && 0 <= j < registries.len() && i != j && (
        #[trigger] registries[i]).1.enabled && (#[trigger] registries[j]).1.enabled
            ==> !registries[i].1.upstream.is_prefix_of(registries[j].1.upstream)
}

/// Where token paths lead does not depend on the order of the registries,
/// where no upstream host begins with another.
pub proof fn law_token_routing_ignores_order(
    a: Seq<(Seq<char>, MappingView)>,
    b: Seq<(Seq<char>, MappingView)>,
    path: Seq<char>,
)
    requires
        is_token_path(path),
        !is_api_path(path),
        same_entries(a, b),
        are_apart(a),
    ensures
        host_of(a, path) == host_of(b, path),
        url_of(a, path) == url_of(b, path),
{
    match query_param(query_of(path), "service"@) {
        Some(service) => {
            lemma_registry_of_service(a, service);
            lemma_registry_of_service(b, service);
            match registry_of_service(a, service) {
                Some(x) => {
                    let i = choose|i: int| 0 <= i < a.len() && #[trigger] a[i] == x;
                    let k = b.index_of(a[i]);
                    assert(b[k] == x);
                    match registry_of_service(b, service) {
                        Some(y) => {
                            let j = choose|j: int| 0 <= j < b.len() && #[trigger] b[j] == y;
                            let m = a.index_of(b[j]);
                            assert(a[m] == y);
                            let p = x.1.upstream;
                            let q = y.1.upstream;
                            if i != m {
                                if p.len() <= q.len() {
                                    assert(p =~= q.subrange(0, p.len() as int)) by {
                                        assert forall|t: int| 0 <= t < p.len() implies p[t]
                                            == q[t] by {
                                            assert(service.subrange(0, p.len() as int)[t] == p[t]);
                                            assert(service.subrange(0, q.len() as int)[t] == q[t]);
                                        }
                                    }
                                    assert(!a[i].1.upstream.is_prefix_of(a[m].1.upstream));
                                } else {
                                    assert(q =~= p.subrange(0, q.len() as int)) by {
                                        assert forall|t: int| 0 <= t < q.len() implies p[t]
                                            == q[t] by {
                                            assert(service.subrange(0, p.len() as int)[t] == p[t]);
                                            assert(service.subrange(0, q.len() as int)[t] == q[t]);
                                        }
                                    }
                                    assert(!a[m].1.upstream.is_prefix_of(a[i].1.upstream));
                                }
                            }
                        },
                        None => {},
                    }
                },
                None => match registry_of_service(b, service) {
                    Some(y) => {
                        let j = choose|j: int| 0 <= j < b.len() && #[trigger] b[j] == y;
                        let m = a.index_of(b[j]);
                        assert(a[m] == y);
                    },
                    None => {},
                },
            }
        },
        None => {},
    }
}

/// The name and the value of a scope parameter.
proof fn lemma_scope_param(value: Seq<char>)
    ensures
        ("scope="@ + value).contains('='),
        before("scope="@ + value, '=') == "scope"@,
        after("scope="@ + value, '=') == value,
{
    reveal_strlit("scope=");
    reveal_strlit("scope");
    let param = "scope="@ + value;
    assert(param[5] == '=');
    lemma_position_at(param, '=', 5);
    assert(before(param, '=') =~= "scope"@);
    assert(after(param, '=') =~= value);
}

/// A scope that names a repository by the registry's domain is given to the
/// registry by the repository's own name.
pub proof fn law_scope_loses_domain(domain: Seq<char>, repository: Seq<char>)
    ensures
        stripped_param("scope=repository:"@ + domain + "/"@ + repository, domain)
            == "scope=repository:"@ + repository,
        stripped_param("scope=repository:"@ + domain + ":"@ + repository, domain)
            == "scope=repository:"@ + repository,
{
    reveal_strlit("scope=repository:");
    reveal_strlit("scope=");
    reveal_strlit("repository:");
    reveal_strlit("/");
    reveal_strlit(":");
    let prefix = "repository:"@ + domain;
    assert forall|sep: Seq<char>|
        sep.len() == 1 && (sep[0] == '/' || sep[0] == ':') implies #[trigger] stripped_param(
        "scope=repository:"@ + domain + sep + repository,
        domain,
    ) == "scope=repository:"@ + repository by {
        let value = prefix + sep + repository;
        let param = "scope=repository:"@ + domain + sep + repository;
        assert(param =~= "scope="@ + value);
        lemma_scope_param(value);
        assert(value.subrange(0, prefix.len() as int) =~= prefix);
        let rest = value.skip(prefix.len() as int);
        assert(rest =~= sep + repository);
        assert(rest.skip(1) =~= repository);
    }
    assert("/"@.len() == 1);
    assert(":"@.len() == 1);
    assert(stripped_param("scope=repository:"@ + domain + "/"@ + repository, domain)
        == "scope=repository:"@ + repository);
    assert(stripped_param("scope=repository:"@ + domain + ":"@ + repository, domain)
        == "scope=repository:"@ + repository);
}

/// A scope that names a repository of a domain that merely begins like the
/// registry's stays as it is.
pub proof fn law_other_domains_keep_scope(domain: Seq<char>, c: char, rest: Seq<char>)
    requires
        c != '/',
        c != ':',
    ensures
        stripped_param("scope=repository:"@ + domain + seq![c] + rest, domain)
            == "scope=repository:"@ + domain + seq![c] + rest,
{
    reveal_strlit("scope=repository:");
    reveal_strlit("scope=");
    reveal_strlit("repository:");
    let prefix = "repository:"@ + domain;
    let value = prefix + seq![c] + rest;
    let param = "scope=repository:"@ + domain + seq![c] + rest;
    assert(param =~= "scope="@ + value);
    lemma_scope_param(value);
    assert(value.skip(prefix.len() as int)[0] == c);
}

/// A parameter without an ampersand has none when it is stripped.
proof fn lemma_stripped_is_separate(param: Seq<char>, domain: Seq<char>)
    requires
        !param.contains('&'),
    ensures
        !stripped_param(param, domain).contains('&'),
{
    let r = stripped_param(param, domain);
    if r != param && r.contains('&') {
        reveal_strlit("scope=repository:");
        let prefix = "repository:"@ + domain;
        lemma_position(param, '=');
        let j = r.index_of('&');
        let literal = "scope=repository:"@;
        if j < literal.len() {
            assert(literal[j] == '&');
        } else {
            let at = position(param, '=') + 1 + prefix.len() + 1 + (j - literal.len());
            let value = after(param, '=');
            assert(r[j] == value.skip(prefix.len() as int).skip(1)[j - literal.len()]);
            assert(r[j] == param[at]);
        }
    }
}

/// Stripping a query strips its parameters one by one: their number and order
/// stay, and no parameter runs into another.
pub proof fn law_stripping_keeps_params_apart(query: Seq<char>, domain: Seq<char>)
    ensures
        pieces(stripped_query(query, domain), '&') == pieces(query, '&').map_values(
            |param: Seq<char>| stripped_param(param, domain),
        ),
{
    let params = pieces(query, '&');
    let stripped = params.map_values(|param: Seq<char>| stripped_param(param, domain));
    assert forall|i: int| 0 <= i < stripped.len() implies !(#[trigger] stripped[i]).contains(
        '&',
    ) by {
        law_pieces_are_separate(query, '&', i);
        lemma_stripped_is_separate(params[i], domain);
    }
    lemma_pieces_nonempty(query, '&');
    reveal_strlit("&");
    assert("&"@ =~= seq!['&']);
    law_join_then_split(stripped, '&');
}

/// Stripping changes the value of no parameter but `scope`.
pub proof fn law_stripping_keeps_other_params(
    query: Seq<char>,
    domain: Seq<char>,
    key: Seq<char>,
)
    requires
        key != "scope"@,
    ensures
        query_param(stripped_query(query, domain), key) == query_param(query, key),
{
    law_stripping_keeps_params_apart(query, domain);
    lemma_stripped_pair_value(pieces(query, '&'), domain, key);
}

proof fn lemma_stripped_pair_value(params: Seq<Seq<char>>, domain: Seq<char>, key: Seq<char>)
    requires
        key != "scope"@,
    ensures
        pair_value(
            params.map_values(|param: Seq<char>| stripped_param(param, domain)),
            key,
        ) == pair_value(params, key),
    decreases params.len(),
{
    let stripped = params.map_values(|param: Seq<char>| stripped_param(param, domain));
    if params.len() > 0 {
        let tail = params.drop_first();
        assert(stripped.drop_first() =~= tail.map_values(
            |param: Seq<char>| stripped_param(param, domain),
        ));
        lemma_stripped_pair_value(tail, domain, key);
        let p = params[0];
        let r = stripped_param(p, domain);
        assert(stripped[0] == r);
        if r != p {
            let prefix = "repository:"@ + domain;
            let value = "repository:"@ + after(p, '=').skip(prefix.len() as int).skip(1);
            reveal_strlit("scope=repository:");
            reveal_strlit("scope=");
            reveal_strlit("repository:");
            assert(r =~= "scope="@ + value);
            lemma_scope_param(value);
        }
    }
}

/// A query without a scope of the registry's stays as it is.
pub proof fn law_other_queries_stay(query: Seq<char>, domain: Seq<char>)
    requires
        forall|i: int|
            0 <= i < pieces(query, '&').len() ==> stripped_param(
                #[trigger] pieces(query, '&')[i],
                domain,
            ) == pieces(query, '&')[i],
    ensures
        stripped_query(query, domain) == query,
{
    let params = pieces(query, '&');
    assert(params.map_values(|param: Seq<char>| stripped_param(param, domain)) =~= params);
    reveal_strlit("&");
    assert("&"@ =~= seq!['&']);
    law_split_then_join(query, '&');
}

/// The keywords of a path are two segments; neither holds a slash, and the
/// first is not empty.
pub proof fn law_keywords_are_segments(path: Seq<char>)
    requires
        keywords_of(path) is Some,
    ensures
        keywords_of(path)->0.len() == 2,
        !keywords_of(path)->0[0].contains('/'),
        !keywords_of(path)->0[1].contains('/'),
        keywords_of(path)->0[0].len() > 0,
{
    let s = without_slashes(api_rest(path));
    law_pieces_are_separate(s, '/', 0);
    law_pieces_are_separate(s, '/', 1);
    lemma_without_slashes(api_rest(path));
    lemma_position(s, '/');
    assert(position(s, '/') > 0);
}

proof fn lemma_without_slashes(s: Seq<char>)
    ensures
        without_slashes(s).len() > 0 ==> without_slashes(s)[0] != '/',
    decreases s.len(),
{
    if s.len() > 0 && s[0] == '/' {
        lemma_without_slashes(s.drop_first());
    }
}

/// Leading clients to the proxy's token endpoint changes no header but the
/// challenge, and the number of challenges stays.
pub proof fn law_only_challenges_change(
    contents: Map<Seq<char>, Seq<Seq<u8>>>,
    registries: Seq<(Seq<char>, MappingView)>,
    name: Seq<char>,
)
    requires
        contents.contains_key(name) ==> contents[name].len() > 0,
    ensures
        with_redirected_challenge(contents, registries).contains_key(name)
            == contents.contains_key(name),
        contents.contains_key(name) ==> with_redirected_challenge(contents, registries)[name].len()
            == contents[name].len(),
        contents.contains_key(name) && name != "www-authenticate"@ ==> with_redirected_challenge(
            contents,
            registries,
        )[name] == contents[name],
{
}

/// A request keeps every header but `Host`, with as many values as it had, and
/// keeps the values of every header but `Referer`.
pub proof fn law_requests_keep_headers(
    contents: Map<Seq<char>, Seq<Seq<u8>>>,
    host: Option<Seq<char>>,
    name: Seq<char>,
)
    ensures
        !forwarded(contents, host).contains_key("host"@),
        name != "host"@ && contents.contains_key(name) ==> forwarded(contents, host).contains_key(
            name,
        ) && forwarded(contents, host)[name].len() == contents[name].len(),
        name != "host"@ && name != "referer"@ && contents.contains_key(name) ==> forwarded(
            contents,
            host,
        )[name] == contents[name],
{
}

/// A client that brings an authorization keeps it: it is forwarded as it is,
/// and no account of the proxy takes its place.
pub proof fn law_client_authorization_wins(
    contents: Map<Seq<char>, Seq<Seq<u8>>>,
    host: Option<Seq<char>>,
    url: Seq<char>,
    registries: Seq<(Seq<char>, MappingView)>,
)
    requires
        contents.contains_key("authorization"@),
    ensures
        account_for(contents, url, registries) is None,
        forwarded(contents, host).contains_key("authorization"@),
        forwarded(contents, host)["authorization"@] == contents["authorization"@],
{
    reveal_strlit("authorization");
    reveal_strlit("host");
    reveal_strlit("referer");
    assert("authorization"@.len() != "host"@.len());
    assert("authorization"@.len() != "referer"@.len());
}

/// An account is only used at the upstream host or the token host of an
/// enabled registry that it belongs to.
pub proof fn law_accounts_stay_at_their_hosts(
    contents: Map<Seq<char>, Seq<Seq<u8>>>,
    url: Seq<char>,
    registries: Seq<(Seq<char>, MappingView)>,
    account: MappingView,
)
    requires
        account_for(contents, url, registries) == Some(account),
    ensures
        account.enabled,
        url_authority(url) is Some,
        is_at(url_authority(url)->0, account.upstream) || is_at(
            url_authority(url)->0,
            before(account.auth_host, '/'),
        ),
        exists|i: int| 0 <= i < registries.len() && (#[trigger] registries[i]).1 == account,
{
    lemma_account_at(registries, url_authority(url)->0);
}

/// No policy of the upstream site passes, every other header passes with its
/// first value alone, and cleaning twice is cleaning once.
pub proof fn law_cleaning(contents: Map<Seq<char>, Seq<Seq<u8>>>, name: Seq<char>)
    ensures
        is_site_policy(name) ==> !cleaned(contents).contains_key(name),
        !is_site_policy(name) && contents.contains_key(name) ==> cleaned(contents).contains_key(
            name,
        ) && cleaned(contents)[name] == seq![contents[name][0]],
        cleaned(cleaned(contents)) == cleaned(contents),
{
    assert(cleaned(cleaned(contents)) =~= cleaned(contents));
}

/// A limit that is not positive is none.
pub proof fn law_no_limit(contents: Map<Seq<char>, Seq<Seq<u8>>>, limit: i64)
    requires
        limit <= 0,
    ensures
        !exceeds(contents, limit),
        !limit_overflows(contents, limit),
{
}

/// The literals of a relative and of an absolute realm agree.
pub proof fn lemma_realm_literals()
    ensures
        "realm=\"https://"@ == "realm=\"/"@.take(7) + "https://"@,
        "realm=\""@ == "realm=\"/"@.take(7),
        "realm=\"/"@.len() == 8,
        "https://"@.len() == 8,
        "/"@ == seq!["realm=\"/"@[7]],
{
    reveal_strlit("realm=\"/");
    reveal_strlit("realm=\"https://");
    reveal_strlit("realm=\"");
    reveal_strlit("https://");
    reveal_strlit("/");
    let opening = "realm=\""@;
    let front = "realm=\"/"@.take(7);
    assert(opening[0] == front[0] && opening[1] == front[1] && opening[2] == front[2] && opening[3]
        == front[3] && opening[4] == front[4] && opening[5] == front[5] && opening[6]
        == front[6]);
    assert forall|k: int| 0 <= k < 7 implies opening[k] == front[k] by {
        assert(k == 0 || k == 1 || k == 2 || k == 3 || k == 4 || k == 5 || k == 6);
    }
    assert(opening =~= front);
    let whole = "realm=\"https://"@;
    let parts = "realm=\"/"@.take(7) + "https://"@;
    assert(whole[0] == parts[0] && whole[1] == parts[1] && whole[2] == parts[2] && whole[3]
        == parts[3] && whole[4] == parts[4] && whole[5] == parts[5] && whole[6] == parts[6]
        && whole[7] == parts[7] && whole[8] == parts[8] && whole[9] == parts[9] && whole[10]
        == parts[10] && whole[11] == parts[11] && whole[12] == parts[12] && whole[13] == parts[13]
        && whole[14] == parts[14]);
    assert forall|k: int| 0 <= k < 15 implies whole[k] == parts[k] by {
        assert(k == 0 || k == 1 || k == 2 || k == 3 || k == 4 || k == 5 || k == 6 || k == 7 || k
            == 8 || k == 9 || k == 10 || k == 11 || k == 12 || k == 13 || k == 14);
    }
    assert(whole =~= parts);
    assert("/"@ =~= seq!["realm=\"/"@[7]]);
}

/// Completing a realm only adds to a challenge: between the opening quote and
/// the path there is the scheme and the host, and without them the challenge
/// is what it was.
pub proof fn law_realm_is_only_completed(challenge: Seq<char>, host: Seq<char>)
    requires
        has_relative_realm(challenge),
    ensures
        ({
            let at = realm_at(challenge)->0;
            let completed = with_realm_host(challenge, host);
            &&& occurs_at(completed, "realm=\"https://"@ + host + "/"@, at)
            &&& completed.len() == challenge.len() + 8 + host.len()
            &&& completed.take(at + 7) + completed.skip(at + 7 + 8 + host.len()) == challenge
        }),
{
    lemma_realm_literals();
    lemma_occurrence(challenge, "realm=\"/"@, 0);
    let at = realm_at(challenge)->0;
    let completed = with_realm_host(challenge, host);
    let quoted = "realm=\"/"@;
    assert(challenge.subrange(at, at + 8) == quoted);
    assert forall|k: int| 0 <= k < 8 implies challenge[at + k] == quoted[k] by {
        assert(challenge.subrange(at, at + 8)[k] == quoted[k]);
    }
    let absolute = "realm=\"https://"@ + host + "/"@;
    assert(completed.subrange(at, at + absolute.len()) =~= absolute) by {
        assert forall|k: int| 0 <= k < absolute.len() implies completed[at + k] == absolute[k] by {
            if k < 7 {
                assert(completed[at + k] == challenge[at + k]);
                assert(quoted[k] == absolute[k]);
            } else if k < 15 {
                assert(completed[at + k] == "https://"@[k - 7]);
            } else if k < 15 + host.len() {
                assert(completed[at + k] == host[k - 15]);
            } else {
                assert(completed[at + k] == challenge[at + 7]);
            }
        }
    }
    assert(completed.take(at + 7) + completed.skip(at + 7 + 8 + host.len()) =~= challenge);
}

/// Replacing what does not occur changes nothing.
proof fn lemma_replaced_absent(s: Seq<char>, pat: Seq<char>, to: Seq<char>)
    requires
        !occurs(s, pat),
    ensures
        replaced(s, pat, to) == s,
{
    lemma_occurrence(s, pat, 0);
}

/// A challenge that names no token endpoint which the proxy takes over stays
/// as it is.
pub proof fn law_other_challenges_stay(
    registries: Seq<(Seq<char>, MappingView)>,
    challenge: Seq<char>,
)
    requires
        forall|j: int|
            0 <= j < registries.len() && takes_over_tokens((#[trigger] registries[j]).1)
                ==> !occurs(challenge, auth_url(registries[j].1)),
    ensures
        redirected_challenge(registries, challenge) == challenge,
    decreases registries.len(),
{
    if registries.len() > 0 {
        let tail = registries.drop_first();
        if takes_over_tokens(registries[0].1) {
            lemma_replaced_absent(challenge, auth_url(registries[0].1), "/token"@);
        }
        assert forall|j: int|
            0 <= j < tail.len() && takes_over_tokens((#[trigger] tail[j]).1) implies !occurs(
            challenge,
            auth_url(tail[j].1),
        ) by {
            assert(tail[j] == registries[j + 1]);
        }
        law_other_challenges_stay(tail, challenge);
    }
}

/// A challenge that names the token endpoint of one registry alone is
/// redirected for that registry alone.
pub proof fn law_one_registry_redirects(
    registries: Seq<(Seq<char>, MappingView)>,
    k: int,
    challenge: Seq<char>,
)
    requires
        0 <= k < registries.len(),
        forall|j: int|
            0 <= j < registries.len() && j != k && takes_over_tokens(
                (#[trigger] registries[j]).1,
            ) ==> !occurs(challenge, auth_url(registries[j].1)) && !occurs(
                redirected_by(registries[k].1, challenge),
                auth_url(registries[j].1),
            ),
    ensures
        redirected_challenge(registries, challenge) == redirected_by(registries[k].1, challenge),
    decreases registries.len(),
{
    let tail = registries.drop_first();
    if k == 0 {
        let next = redirected_by(registries[0].1, challenge);
        assert forall|j: int|
            0 <= j < tail.len() && takes_over_tokens((#[trigger] tail[j]).1) implies !occurs(
            next,
            auth_url(tail[j].1),
        ) by {
            assert(tail[j] == registries[j + 1]);
        }
        law_other_challenges_stay(tail, next);
    } else {
        if takes_over_tokens(registries[0].1) {
            lemma_replaced_absent(challenge, auth_url(registries[0].1), "/token"@);
        }
        assert(tail[k - 1] == registries[k]);
        assert forall|j: int|
            0 <= j < tail.len() && j != k - 1 && takes_over_tokens(
                (#[trigger] tail[j]).1,
            ) implies !occurs(challenge, auth_url(tail[j].1)) && !occurs(
            redirected_by(tail[k - 1].1, challenge),
            auth_url(tail[j].1),
        ) by {
            assert(tail[j] == registries[j + 1]);
        }
        law_one_registry_redirects(tail, k - 1, challenge);
    }
}

/// A realm that is the token endpoint of a registry that the proxy takes over
/// becomes the proxy's own token endpoint, at the host that the client asked:
/// first as a path, then as a URL. What stands in front of it stays.
pub proof fn law_realm_leads_to_proxy(
    mapping: MappingView,
    challenge: Seq<char>,
    at: int,
    host: Seq<char>,
)
    requires
        takes_over_tokens(mapping),
        occurrence(challenge, auth_url(mapping), 0) == Some(at),
        occurs_at(challenge, "realm=\""@, at - 7),
        at + auth_url(mapping).len() < challenge.len(),
        challenge[at + auth_url(mapping).len()] == '"',
        !occurs(challenge.take(at), "realm=\"/"@),
    ensures
        has_relative_realm(redirected_by(mapping, challenge)),
        with_realm_host(redirected_by(mapping, challenge), host) == challenge.take(at)
            + "https://"@ + host + "/token"@ + replaced(
            challenge.skip(at + auth_url(mapping).len()),
            auth_url(mapping),
            "/token"@,
        ),
{
    lemma_realm_literals();
    reveal_strlit("https://");
    reveal_strlit("/token");
    reveal_strlit("realm=\"/");
    let url = auth_url(mapping);
    let quoted = "realm=\"/"@;
    lemma_occurrence(challenge, url, 0);
    let tail = challenge.skip(at + url.len());
    let path = redirected_by(mapping, challenge);
    let rest = replaced(tail, url, "/token"@);
    assert(path == challenge.take(at) + "/token"@ + rest);
    assert(tail[0] == '"');
    assert(rest.len() > 0 && rest[0] == '"') by {
        lemma_occurrence(tail, url, 0);
        match occurrence(tail, url, 0) {
            Some(i) => {
                if i == 0 {
                    assert(tail.subrange(0, url.len() as int)[0] == url[0]);
                    assert(url[0] == 'h');
                }
                assert(rest[0] == tail[0]);
            },
            None => {},
        }
    }
    assert(occurs_at(path, quoted, at - 7)) by {
        assert(path.subrange(at - 7, at + 1) =~= quoted) by {
            assert forall|j: int| 0 <= j < 8 implies path[at - 7 + j] == quoted[j] by {
                if j < 7 {
                    assert(path[at - 7 + j] == challenge[at - 7 + j]);
                    assert(challenge.subrange(at - 7, at)[j] == quoted.take(7)[j]);
                } else {
                    assert(path[at] == "/token"@[0]);
                }
            }
        }
    }
    assert forall|j: int| 0 <= j < at - 7 implies !occurs_at(path, quoted, j) by {
        if occurs_at(path, quoted, j) {
            assert(challenge.take(at).subrange(j, j + 8) =~= path.subrange(j, j + 8));
            assert(occurs_at(challenge.take(at), quoted, j));
        }
    }
    lemma_occurrence_at(path, quoted, 0, at - 7);
    assert(path.skip(at + 1)[5] == rest[0]);
    assert(path.skip(at + 1).contains('"'));
    assert(with_realm_host(path, host) =~= challenge.take(at) + "https://"@ + host + "/token"@
        + rest);
}

/// An answer whose challenge names the token endpoint of a registry that the
/// proxy takes over, and of no other, leads the client to the proxy's own token
/// endpoint at the host that the client asked.
pub proof fn law_challenge_leads_to_proxy(
    contents: Map<Seq<char>, Seq<Seq<u8>>>,
    request: Map<Seq<char>, Seq<Seq<u8>>>,
    registries: Seq<(Seq<char>, MappingView)>,
    k: int,
    at: int,
    challenge: Seq<char>,
    host: Seq<char>,
)
    requires
        0 <= k < registries.len(),
        contents.contains_key("www-authenticate"@),
        contents["www-authenticate"@].len() > 0,
        first_text(contents, "www-authenticate"@) == Some(challenge),
        first_text(request, "host"@) == Some(host),
        takes_over_tokens(registries[k].1),
        occurrence(challenge, auth_url(registries[k].1), 0) == Some(at),
        occurs_at(challenge, "realm=\""@, at - 7),
        at + auth_url(registries[k].1).len() < challenge.len(),
        challenge[at + auth_url(registries[k].1).len()] == '"',
        !occurs(challenge.take(at), "realm=\"/"@),
        forall|j: int|
            0 <= j < registries.len() && j != k && takes_over_tokens(
                (#[trigger] registries[j]).1,
            ) ==> !occurs(challenge, auth_url(registries[j].1)) && !occurs(
                redirected_by(registries[k].1, challenge),
                auth_url(registries[j].1),
            ),
    ensures
        first_text(
            with_absolute_realm(with_redirected_challenge(contents, registries), request),
            "www-authenticate"@,
        ) == Some(
            challenge.take(at) + "https://"@ + host + "/token"@ + replaced(
                challenge.skip(at + auth_url(registries[k].1).len()),
                auth_url(registries[k].1),
                "/token"@,
            ),
        ),
{
    let path = redirected_challenge(registries, challenge);
    law_one_registry_redirects(registries, k, challenge);
    law_realm_leads_to_proxy(registries[k].1, challenge, at, host);
    lemma_text_of(contents["www-authenticate"@][0]);
    lemma_text_of(request["host"@][0]);
    lemma_challenge_visible(registries, challenge);
    lemma_visible_text(path);
    lemma_realm_visible(path, host);
    lemma_visible_text(with_realm_host(path, host));
}

/// Whether a chain of exchanges that begins at a depth is one of redirects: each
/// exchange but the last was admitted, and its redirect led to the next.
pub open spec fn is_redirect_chain(
    openings: Seq<Opening>,
    directions: Seq<Direction>,
    depth: u8,
) -> bool {
    &&& openings.len() == directions.len() + 1
    &&& begins_at(openings[0], depth)
    &&& forall|i: int|
        0 <= i < directions.len() ==> {
            &&& (#[trigger] directions[i]) is Follow
            &&& openings[i] is Ask
            &&& leads_deeper(directions[i], openings[i]->Ask_0.depth())
            &&& begins_at(openings[i + 1], directions[i]->depth)
        }
}

/// How many exchanges are admitted of a chain of redirects that begins at a
/// depth.
pub open spec fn admitted_from(depth: u8) -> int {
    if depth < MAX_REDIRECTS {
        MAX_REDIRECTS - depth
    } else {
        0
    }
}

/// A chain of redirects ends, at whatever depth it begins: upstream servers are
/// asked until the limit is reached, and the exchange behind the last of them is
/// refused.
pub proof fn law_redirects_end(openings: Seq<Opening>, directions: Seq<Direction>, depth: u8)
    requires
        is_redirect_chain(openings, directions, depth),
    ensures
        openings.len() <= admitted_from(depth) + 1,
        forall|i: int|
            0 <= i < openings.len() && (#[trigger] openings[i]) is Ask
                ==> openings[i]->Ask_0.depth() == depth + i,
        openings.len() == admitted_from(depth) + 1 ==> {
            &&& openings.last() matches Opening::Reply(reply)
            &&& is_reply(reply, 508, "Too many redirects."@)
        },
{
    lemma_chain_depths(openings, directions, depth, directions.len() as int);
    assert(begins_at(openings.last(), (depth + directions.len()) as u8));
}

/// The exchange at an index of a chain of redirects is as many redirects deeper.
proof fn lemma_chain_depths(
    openings: Seq<Opening>,
    directions: Seq<Direction>,
    depth: u8,
    k: int,
)
    requires
        is_redirect_chain(openings, directions, depth),
        0 <= k <= directions.len(),
    ensures
        k > 0 ==> depth + k <= MAX_REDIRECTS,
        forall|i: int|
            0 <= i <= k ==> begins_at(#[trigger] openings[i], (depth + i) as u8),
    decreases k,
{
    if k > 0 {
        lemma_chain_depths(openings, directions, depth, k - 1);
        assert(directions[k - 1] is Follow);
        assert(begins_at(openings[k - 1], (depth + (k - 1)) as u8));
    }
}

/// Neither the proxy of image registries nor the completion of a realm gives a
/// header of a cleaned answer a second value, so that a new location always has
/// room there.
pub proof fn law_answers_keep_one_value(
    contents: Map<Seq<char>, Seq<Seq<u8>>>,
    registries: Seq<(Seq<char>, MappingView)>,
    request: Map<Seq<char>, Seq<Seq<u8>>>,
    name: Seq<char>,
)
    requires
        cleaned(contents).contains_key(name),
    ensures
        with_absolute_realm(cleaned(contents), request)[name].len() == 1,
        with_absolute_realm(
            with_redirected_challenge(cleaned(contents), registries),
            request,
        )[name].len() == 1,
{
}

/// Whether some pattern of a list covers a target.
pub open spec fn list_covers(list: Seq<Seq<char>>, target: Seq<char>) -> bool {
    exists|i: int| 0 <= i < list.len() && covers(#[trigger] list[i], target)
}

/// A list that holds the patterns of another covers what the other covers, in
/// whatever order the patterns stand.
pub proof fn law_more_patterns_cover_more(
    list: Seq<Seq<char>>,
    more: Seq<Seq<char>>,
    target: Seq<char>,
)
    requires
        forall|i: int| 0 <= i < list.len() ==> more.contains(#[trigger] list[i]),
        list_covers(list, target),
    ensures
        list_covers(more, target),
{
    let i = choose|i: int| 0 <= i < list.len() && covers(#[trigger] list[i], target);
    let k = more.index_of(list[i]);
    assert(more[k] == list[i]);
}

/// A lone star covers everything, and a pattern without a star covers itself
/// and all that begins with it.
pub proof fn law_simple_patterns(pattern: Seq<char>, rest: Seq<char>)
    ensures
        covers("*"@, rest),
        !pattern.contains('*') ==> covers(pattern, pattern + rest),
{
    reveal_strlit("*");
    assert((pattern + rest).subrange(0, pattern.len() as int) =~= pattern);
    if !pattern.contains('*') {
        assert("*"@.contains('*')) by {
            assert("*"@[0] == '*');
        }
    }
}

/// A wildcard that ends in its only star accepts what begins with the text in
/// front of the star and has no line break behind it, and nothing else.
pub proof fn law_trailing_star(prefix: Seq<char>, target: Seq<char>)
    requires
        !prefix.contains('*'),
    ensures
        wildcard_accepts(prefix.push('*'), target) <==> prefix.is_prefix_of(target)
            && !target.skip(prefix.len() as int).contains('\n'),
    decreases prefix.len(),
{
    let wildcard = prefix.push('*');
    if prefix.len() == 0 {
        assert(wildcard[0] == '*');
        assert(wildcard.drop_first() =~= Seq::empty());
        assert(prefix =~= target.subrange(0, 0));
        assert(target.skip(0) =~= target);
        if !target.contains('\n') {
            assert(target.take(target.len() as int) =~= target);
            assert(target.skip(target.len() as int) =~= Seq::empty());
            assert(wildcard_accepts(wildcard.drop_first(), target.skip(target.len() as int)));
        }
        if wildcard_accepts(wildcard, target) {
            let k = choose|k: int|
                0 <= k <= target.len() && !target.take(k).contains('\n') && wildcard_accepts(
                    wildcard.drop_first(),
                    #[trigger] target.skip(k),
                );
            assert(target.skip(k).len() == 0);
            assert(target.take(k) =~= target);
        }
    } else {
        assert(prefix.contains(prefix[0]));
        assert(wildcard[0] == prefix[0]);
        let tail = prefix.drop_first();
        assert(wildcard.drop_first() =~= tail.push('*'));
        assert(!tail.contains('*')) by {
            if tail.contains('*') {
                let j = tail.index_of('*');
                assert(prefix[j + 1] == '*');
            }
        }
        if target.len() > 0 {
            law_trailing_star(tail, target.drop_first());
            if prefix.len() <= target.len() {
                assert(target.drop_first().skip(tail.len() as int) =~= target.skip(
                    prefix.len() as int,
                ));
            }
            if target[0] == prefix[0] && tail.is_prefix_of(target.drop_first()) {
                assert(prefix =~= target.subrange(0, prefix.len() as int)) by {
                    assert forall|k: int| 0 <= k < prefix.len() implies prefix[k] == target[k] by {
                        if k > 0 {
                            assert(target.drop_first().subrange(0, tail.len() as int)[k - 1]
                                == tail[k - 1]);
                        }
                    }
                }
            }
            if prefix.is_prefix_of(target) {
                assert(target.subrange(0, prefix.len() as int)[0] == prefix[0]);
                assert(tail =~= target.drop_first().subrange(0, tail.len() as int)) by {
                    assert forall|k: int| 0 <= k < tail.len() implies tail[k]
                        == target.drop_first()[k] by {
                        assert(target.subrange(0, prefix.len() as int)[k + 1] == prefix[k + 1]);
                    }
                }
            }
        }
    }
}

} // verus!
